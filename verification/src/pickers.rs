//! The pickers: minimum stars, language, theme and the confirmation of an
//! action, with what choosing in each of them does.

use vstd::prelude::*;
use crate::catalog::{Catalog, CatalogModel, Row};
use crate::installed::Choice;
use crate::keys::Key;
use crate::managers::{Action, ManagerId, MANAGER_COUNT};
use crate::query::Query;
use crate::text::{to_lowercase, unicode_lower, views};
use crate::keys::{contains_text, edit, holds_text, list_motion, spec_edit, spec_list_motion};
use crate::show::{decimal, push_decimal};
use crate::managers::{spec_argv, spec_manager};
use crate::installed::{action_mask, choice_view, choices_of, choices_upto, impossible, row_packages, spec_impossible};
use crate::managers::manager;
use crate::catalog::Ecosystem;
use vstd::utf8::decode_utf8;
use crate::theme::{names as theme_list, theme_names};
use crate::theme::THEME_COUNT;
use crate::app::{App, Effect, Job, MAX_COUNT, Mode, Picker, PickerKind, STAR_PRESET_COUNT, job_view, join, join_with, last_at_most, lemma_refiltered, log_kept, masks_ok, mode_ok, picker_ok, refiltered, sat_sub, smaller, star_item, star_preset, star_presets, view_ok};

verus! {

fn star_label(n: u32) -> (r: String)
    ensures
        r@ == star_item(n),
{
    if n == 0 {
        String::from_str("any")
    } else {
        let mut s = String::from_str("\u{2265} ");
        push_decimal(&mut s, n as u64);
        s
    }
}

/// What a confirmation is titled: the action, capitalized, and the TUI's name.
pub open spec fn confirm_title(action: Action, name: Seq<char>) -> Seq<char> {
    (match action {
        Action::Install => "Install "@,
        Action::Uninstall => "Uninstall "@,
        Action::Upgrade => "Upgrade "@,
    }) + name + "?"@
}

/// The command line of a choice, as a confirmation shows it.
pub open spec fn choice_line(c: (ManagerId, Seq<char>), action: Action, go_bin: Seq<char>, root: bool) -> Seq<char> {
    join_with(spec_argv(spec_manager(c.0 as int), action, c.1, go_bin, root), " "@)
}

/// Every choice among managers `0..n` is one of them.
pub proof fn lemma_choice_managers(pkgs: Seq<(Ecosystem, Seq<char>)>, mask: u16, n: int)
    requires
        0 <= n <= MANAGER_COUNT,
    ensures
        forall|i: int|
            0 <= i < choices_upto(pkgs, mask, n).len() ==> (#[trigger] choices_upto(pkgs, mask, n)[i].0 as int) < n,
    decreases n,
{
    if n > 0 {
        lemma_choice_managers(pkgs, mask, n - 1);
        lemma_choices_of(pkgs, mask, n - 1, pkgs.len() as int);
        let a = choices_upto(pkgs, mask, n - 1);
        let b = choices_of(pkgs, mask, n - 1, pkgs.len() as int);
        assert forall|i: int| 0 <= i < (a + b).len() implies ((a + b)[i].0 as int) < n by {
            if i >= a.len() {
                assert((a + b)[i] == b[i - a.len()]);
            }
        }
    }
}

pub proof fn lemma_choices_of(pkgs: Seq<(Ecosystem, Seq<char>)>, mask: u16, id: int, k: int)
    requires
        0 <= id < MANAGER_COUNT,
    ensures
        forall|i: int| 0 <= i < choices_of(pkgs, mask, id, k).len() ==> #[trigger] choices_of(pkgs, mask, id, k)[i].0 == id,
    decreases k,
{
    if k > 0 {
        lemma_choices_of(pkgs, mask, id, k - 1);
        let prev = choices_of(pkgs, mask, id, k - 1);
        let cur = choices_of(pkgs, mask, id, k);
        assert forall|i: int| 0 <= i < cur.len() implies #[trigger] cur[i].0 == id by {
            if i < prev.len() {
                assert(cur[i] == prev[i]);
            } else {
                assert((id as ManagerId) as int == id);
            }
        }
    }
}

/// Themes `0..k` whose name holds `needle`.
pub open spec fn themes_matching(needle: Seq<char>, k: int) -> Seq<usize>
    decreases k,
{
    if k <= 0 {
        seq![]
    } else if holds_text(theme_names()[k - 1], needle) {
        themes_matching(needle, k - 1).push((k - 1) as usize)
    } else {
        themes_matching(needle, k - 1)
    }
}

/// Where `x` first stands in `s`, or 0.
pub open spec fn index_or_first<T>(s: Seq<T>, x: T) -> int {
    if s.contains(x) {
        choose|i: int| 0 <= i < s.len() && s[i] == x && forall|j: int| 0 <= j < i ==> s[j] != x
    } else {
        0
    }
}

/// Where `x` first stands in `s`.
fn first_index(s: &Vec<usize>, x: usize) -> (r: usize)
    ensures
        r == index_or_first(s@, x),
{
    let mut i: usize = 0;
    while i < s.len()
        invariant
            i <= s@.len(),
            forall|j: int| 0 <= j < i ==> s@[j] != x,
        decreases s@.len() - i,
    {
        if s[i] == x {
            proof {
                let w = choose|w: int| 0 <= w < s@.len() && s@[w] == x && forall|j: int| 0 <= j < w ==> s@[j] != x;
                if w < i {
                } else if w > i {
                    assert(s@[i as int] == x);
                }
            }
            return i;
        }
        i += 1;
    }
    0
}

/// The theme picker: themes whose name holds the lowercased `filter`, with
/// the previewed theme selected when it is among them.
#[verifier::opaque]
pub open spec fn theme_picker_ok(p: Picker, theme: usize, original: usize, filter: Option<Seq<char>>) -> bool {
    let needle = match filter {
        Some(f) => unicode_lower(f),
        None => unicode_lower(seq![]),
    };
    let ids = themes_matching(needle, THEME_COUNT as int);
    &&& p.title@ == "Theme"@
    &&& p.kind matches PickerKind::Theme { original: o, filter: f, ids: i } && o == original && i@ == ids
        && match f {
        Some(t) => filter == Some(t@),
        None => filter is None,
    }
    &&& views(p.items@) == ids.map_values(|i: usize| theme_names()[i as int])
    &&& p.selected == index_or_first(ids, theme)
}

impl App {
    #[verifier::spinoff_prover]
    pub(crate) fn open_stars_picker(&mut self)
        ensures
            *final(self) == (App { mode: final(self).mode, ..*old(self) }),
            final(self).mode matches Mode::Picker(p) && p.title@ == "Minimum stars"@ && views(p.items@)
                == star_presets().map_values(|n: u32| star_item(n)) && p.selected == last_at_most(
                old(self).query.min_stars,
                STAR_PRESET_COUNT as int,
            ) && p.kind == PickerKind::MinStars,
            mode_ok(final(self).mode, final(self).catalog@),
            old(self).wf() ==> final(self).wf(),
    {
        reveal(picker_ok);
        let mut items: Vec<String> = Vec::new();
        let mut selected: usize = 0;
        let mut i: usize = 0;
        while i < STAR_PRESET_COUNT
            invariant
                i <= STAR_PRESET_COUNT,
                views(items@) == star_presets().take(i as int).map_values(|n: u32| star_item(n)),
                selected == last_at_most(self.query.min_stars, i as int),
                selected <= 6,
            decreases STAR_PRESET_COUNT - i,
        {
            let n = star_preset(i);
            let label = star_label(n);
            let ghost before = views(items@);
            items.push(label);
            assert(views(items@) =~= before.push(star_item(n)));
            assert(star_presets().take(i + 1).map_values(|n: u32| star_item(n)) =~= star_presets().take(
                i as int,
            ).map_values(|n: u32| star_item(n)).push(star_item(n)));
            if n <= self.query.min_stars {
                selected = i;
            }
            i += 1;
        }
        assert(star_presets().take(7) =~= star_presets());
        self.mode = Mode::Picker(
            Picker { title: String::from_str("Minimum stars"), items, selected, kind: PickerKind::MinStars },
        );
    }

    /// Themes whose name contains `filter`, keeping the previewed one
    /// selected if it still matches.
    pub(crate) fn theme_picker(&self, original: usize, filter: Option<String>) -> (p: Picker)
        requires
            original < THEME_COUNT,
        ensures
            theme_picker_ok(
                p,
                self.theme,
                original,
                match filter {
                    Some(f) => Some(f@),
                    None => None,
                },
            ),
            picker_ok(p, self.catalog@),
    {
        reveal(picker_ok);
        reveal(theme_picker_ok);
        let needle = match &filter {
            Some(f) => to_lowercase(f.as_str()),
            None => to_lowercase(""),
        };
        let (ids, items) = themes_holding(&needle);
        let selected = first_index(&ids, self.theme);
        proof {
            if ids@.contains(self.theme) {
                let w = choose|w: int|
                    0 <= w < ids@.len() && ids@[w] == self.theme && forall|j: int| 0 <= j < w ==> ids@[j] != self.theme;
                assert(selected == w);
            }
            reveal_strlit("");
            assert(views(items@).len() == items@.len());
            assert(ids@.map_values(|k: usize| theme_names()[k as int]).len() == ids@.len());
            if !ids@.contains(self.theme) {
                assert(selected == 0);
            }
            assert(selected <= sat_sub(items@.len() as int, 1));
        }
        let ghost fv: Option<Seq<char>> = if filter is Some {
            Some(filter->0@)
        } else {
            None
        };
        proof {
            reveal_strlit("");
            assert(""@ =~= Seq::<char>::empty());
        }
        assert(needle@ == match fv {
            Some(f) => unicode_lower(f),
            None => unicode_lower(seq![]),
        });
        let p = Picker { title: String::from_str("Theme"), items, selected, kind: PickerKind::Theme { original, filter, ids } };
        assert(fv == match p.kind {
            PickerKind::Theme { filter: f, .. } => match f {
                Some(f) => Some(f@),
                None => None::<Seq<char>>,
            },
            _ => None,
        });
        p
    }
}

/// The themes whose name holds `needle`, with their names.
fn themes_holding(needle: &String) -> (r: (Vec<usize>, Vec<String>))
    ensures
        r.0@ == themes_matching(needle@, THEME_COUNT as int),
        views(r.1@) == r.0@.map_values(|k: usize| theme_names()[k as int]),
        r.0@.len() <= THEME_COUNT,
        forall|k: int| 0 <= k < r.0@.len() ==> #[trigger] r.0@[k] < THEME_COUNT,
{
    let table = theme_list();
    let mut ids: Vec<usize> = Vec::new();
    let mut items: Vec<String> = Vec::new();
    let mut i: usize = 0;
    assert(ids@ =~= themes_matching(needle@, 0));
    proof {
        assert(theme_names().len() == THEME_COUNT) by {
            reveal(theme_names);
        }
    }
    while i < THEME_COUNT
        invariant
            i <= THEME_COUNT,
            theme_names().len() == THEME_COUNT,
            table@.map_values(|s: &str| s@) == theme_names(),
            table@.len() == THEME_COUNT,
            ids@ == themes_matching(needle@, i as int),
            views(items@) == ids@.map_values(|k: usize| theme_names()[k as int]),
            ids@.len() <= i,
            forall|k: int| 0 <= k < ids@.len() ==> #[trigger] ids@[k] < i,
        decreases THEME_COUNT - i,
    {
        let name = table[i];
        assert(name@ == theme_names()[i as int]);
        if contains_text(name, needle.as_str()) {
            let ghost before_items = views(items@);
            let ghost before_ids = ids@;
            ids.push(i);
            items.push(String::from_str(name));
            assert(views(items@) =~= before_items.push(name@));
            assert(ids@.map_values(|k: usize| theme_names()[k as int]) =~= before_ids.map_values(
                |k: usize| theme_names()[k as int],
            ).push(theme_names()[i as int]));
        }
        i += 1;
    }
    (ids, items)
}

/// Rows among `rows` written in language `id`.
pub open spec fn lang_count(m: CatalogModel, rows: Seq<Row>, id: int) -> nat
    decreases rows.len(),
{
    if rows.len() == 0 {
        0
    } else {
        lang_count(m, rows.drop_last(), id) + if m.language[rows.last() as int] == id {
            1nat
        } else {
            0nat
        }
    }
}

/// The languages the picker can name: `u16` ids.
pub open spec fn languages_shown(m: CatalogModel) -> int {
    smaller(m.languages.len() as int, 65536)
}

/// Whether the language picker lists language `id`: some row in view is
/// written in it, and it has a name.
pub open spec fn lang_listed(m: CatalogModel, rows: Seq<Row>, id: int) -> bool {
    &&& 0 <= id < languages_shown(m)
    &&& lang_count(m, rows, id) > 0
    &&& m.text(m.languages[id]).len() > 0
}

/// Whether language `a` comes before `b` in the picker: more rows first,
/// then the lower id.
pub open spec fn lang_before(m: CatalogModel, rows: Seq<Row>, a: int, b: int) -> bool {
    lang_count(m, rows, a) > lang_count(m, rows, b) || (lang_count(m, rows, a) == lang_count(m, rows, b) && a < b)
}

/// `ids` are the listed languages, in picker order.
pub open spec fn lang_listing(m: CatalogModel, rows: Seq<Row>, ids: Seq<u16>) -> bool {
    &&& forall|id: u16| #[trigger] ids.contains(id) <==> lang_listed(m, rows, id as int)
    &&& forall|i: int, j: int|
        0 <= i < j < ids.len() ==> lang_before(m, rows, #[trigger] ids[i] as int, #[trigger] ids[j] as int)
}

/// The label of language `id` in the picker: its name and its count.
pub open spec fn lang_item(m: CatalogModel, rows: Seq<Row>, id: int) -> Seq<char> {
    decode_utf8(m.text(m.languages[id])) + " ("@ + decimal(lang_count(m, rows, id)) + ")"@
}

/// The language picker over the rows in view, with `current` selected.
#[verifier::opaque]
pub open spec fn language_picker_ok(p: Picker, m: CatalogModel, rows: Seq<Row>, current: Option<u16>) -> bool {
    exists|ids: Seq<u16>|
        {
            &&& #[trigger] lang_listing(m, rows, ids)
            &&& p.title@ == "Language"@
            &&& p.items@.len() == ids.len() + 1
            &&& p.items@[0]@ == "any"@
            &&& forall|k: int| 0 <= k < ids.len() ==> #[trigger] p.items@[k + 1]@ == lang_item(m, rows, ids[k] as int)
            &&& p.kind matches PickerKind::Language(all) && all@ == seq![None].add(ids.map_values(|i: u16| Some(i)))
                && p.selected == index_or_first(all@, current)
        }
}

/// Per language id below `languages_shown`, the rows of `rows` written in it.
    #[verifier::spinoff_prover]
fn lang_counts(catalog: &Catalog, rows: &Vec<Row>) -> (r: Vec<usize>)
    requires
        forall|i: int| 0 <= i < rows@.len() ==> (#[trigger] rows@[i] as int) < catalog@.rows(),
    ensures
        r@.len() == languages_shown(catalog@),
        forall|id: int| 0 <= id < r@.len() ==> #[trigger] r@[id] == lang_count(catalog@, rows@, id),
{
    catalog.check_wf();
    let n = catalog.language_count();
    let l = if n < 65536 {
        n
    } else {
        65536
    };
    let mut counts: Vec<usize> = Vec::new();
    while counts.len() < l
        invariant
            counts@.len() <= l,
            forall|id: int| 0 <= id < counts@.len() ==> #[trigger] counts@[id] == 0,
        decreases l - counts@.len(),
    {
        counts.push(0);
    }
    let mut i: usize = 0;
    while i < rows.len()
        invariant
            catalog@.wf(),
            l == languages_shown(catalog@),
            i <= rows@.len(),
            counts@.len() == l,
            forall|j: int| 0 <= j < rows@.len() ==> (#[trigger] rows@[j] as int) < catalog@.rows(),
            forall|id: int| 0 <= id < l ==> #[trigger] counts@[id] == lang_count(catalog@, rows@.take(i as int), id),
            forall|id: int| 0 <= id < l ==> #[trigger] counts@[id] <= i,
        decreases rows@.len() - i,
    {
        let id = catalog.language_id(rows[i]) as usize;
        proof {
            assert(rows@.take(i + 1).drop_last() =~= rows@.take(i as int));
        }
        if id < l {
            let c = counts[id];
            counts.set(id, c + 1);
        }
        i += 1;
    }
    assert(rows@.take(rows@.len() as int) =~= rows@);
    counts
}

/// The languages with a count and a name, most rows first, ties by id.
    #[verifier::spinoff_prover]
fn sorted_languages(catalog: &Catalog, counts: &Vec<usize>, Ghost(rows): Ghost<Seq<Row>>) -> (r: Vec<u16>)
    requires
        counts@.len() == languages_shown(catalog@),
        forall|id: int| 0 <= id < counts@.len() ==> #[trigger] counts@[id] == lang_count(catalog@, rows, id),
    ensures
        lang_listing(catalog@, rows, r@),
        r@.len() <= 65536,
{
    catalog.check_wf();
    let ghost m = catalog@;
    let l = counts.len();
    let mut ids: Vec<u16> = Vec::new();
    let mut id: usize = 0;
    while id < l
        invariant
            l == counts@.len() == languages_shown(m),
            m == catalog@,
            m.wf(),
            id <= l,
            forall|k: int| 0 <= k < l ==> #[trigger] counts@[k] == lang_count(m, rows, k),
            forall|x: u16| #[trigger] ids@.contains(x) <==> ((x as int) < id && lang_listed(m, rows, x as int)),
            forall|i: int, j: int|
                0 <= i < j < ids@.len() ==> lang_before(m, rows, #[trigger] ids@[i] as int, #[trigger] ids@[j] as int),
            forall|i: int| 0 <= i < ids@.len() ==> (#[trigger] ids@[i] as int) < id,
            ids@.len() <= id,
        decreases l - id,
    {
        let named = catalog.language_name(id as u16).as_bytes().len() > 0;
        if counts[id] > 0 && named {
            let c = counts[id];
            let mut p: usize = 0;
            while p < ids.len() && counts[ids[p] as usize] >= c
                invariant
                    p <= ids@.len(),
                    l == counts@.len(),
                    forall|i: int| 0 <= i < ids@.len() ==> (#[trigger] ids@[i] as int) < id,
                    id < l,
                    c == counts@[id as int],
                    forall|i: int| 0 <= i < p ==> counts@[#[trigger] ids@[i] as int] >= c,
                decreases ids@.len() - p,
            {
                p += 1;
            }
            let ghost before = ids@;
            proof {
                assert forall|i: int| p <= i < before.len() implies counts@[#[trigger] before[i] as int] < c by {
                    if i > p {
                        assert(lang_before(m, rows, before[p as int] as int, before[i] as int));
                    }
                }
            }
            ids.insert(p, id as u16);
            proof {
                assert forall|i: int, j: int|
                    0 <= i < j < ids@.len() implies lang_before(m, rows, #[trigger] ids@[i] as int, #[trigger] ids@[j] as int) by {
                    if j < p {
                        assert(ids@[i] == before[i] && ids@[j] == before[j]);
                    } else if j == p {
                        assert(ids@[i] == before[i]);
                    } else if i < p {
                        assert(ids@[i] == before[i] && ids@[j] == before[j - 1]);
                    } else if i == p {
                        assert(ids@[j] == before[j - 1]);
                    } else {
                        assert(ids@[i] == before[i - 1] && ids@[j] == before[j - 1]);
                    }
                }
                assert forall|x: u16| #[trigger] ids@.contains(x) <==> ((x as int) < id + 1 && lang_listed(m, rows, x as int)) by {
                    if ids@.contains(x) {
                        let k = choose|k: int| 0 <= k < ids@.len() && ids@[k] == x;
                        if k < p {
                            assert(before.contains(x));
                        } else if k > p {
                            assert(ids@[k] == before[k - 1]);
                            assert(before.contains(x));
                        }
                    }
                    if (x as int) < id + 1 && lang_listed(m, rows, x as int) {
                        if x as int == id {
                            assert(ids@[p as int] == x);
                        } else {
                            assert(before.contains(x));
                            let k = choose|k: int| 0 <= k < before.len() && before[k] == x;
                            if k < p {
                                assert(ids@[k] == x);
                            } else {
                                assert(ids@[k + 1] == x);
                            }
                        }
                    }
                }
                assert forall|i: int| 0 <= i < ids@.len() implies (#[trigger] ids@[i] as int) < id + 1 by {
                    if i < p {
                        assert(ids@[i] == before[i]);
                    } else if i > p {
                        assert(ids@[i] == before[i - 1]);
                    }
                }
            }
        } else {
            proof {
                assert forall|x: u16| #[trigger] ids@.contains(x) <==> ((x as int) < id + 1 && lang_listed(m, rows, x as int)) by {
                    if x as int == id {
                        assert(!lang_listed(m, rows, x as int));
                    }
                }
            }
        }
        id += 1;
    }
    ids
}

/// Where `x` first stands in `s`, or 0.
fn option_index(s: &Vec<Option<u16>>, x: Option<u16>) -> (r: usize)
    ensures
        r == index_or_first(s@, x),
{
    let mut i: usize = 0;
    while i < s.len()
        invariant
            i <= s@.len(),
            forall|j: int| 0 <= j < i ==> s@[j] != x,
        decreases s@.len() - i,
    {
        let hit = match (s[i], x) {
            (Some(a), Some(b)) => a == b,
            (None, None) => true,
            _ => false,
        };
        if hit {
            proof {
                let w = choose|w: int| 0 <= w < s@.len() && s@[w] == x && forall|j: int| 0 <= j < w ==> s@[j] != x;
                if w < i {
                } else if w > i {
                    assert(s@[i as int] == x);
                }
            }
            return i;
        }
        i += 1;
    }
    0
}

/// The language picker: the languages of the rows in view, most common first.
    #[verifier::spinoff_prover]
fn language_picker(catalog: &Catalog, rows: &Vec<Row>, current: Option<u16>) -> (p: Picker)
    requires
        forall|i: int| 0 <= i < rows@.len() ==> (#[trigger] rows@[i] as int) < catalog@.rows(),
    ensures
        language_picker_ok(p, catalog@, rows@, current),
        picker_ok(p, catalog@),
{
    reveal(picker_ok);
    reveal(language_picker_ok);
    catalog.check_wf();
    let counts = lang_counts(catalog, rows);
    let ids = sorted_languages(catalog, &counts, Ghost(rows@));
    let ghost m = catalog@;
    let mut items: Vec<String> = Vec::new();
    items.push(String::from_str("any"));
    let mut all: Vec<Option<u16>> = Vec::new();
    all.push(None);
    let mut k: usize = 0;
    while k < ids.len()
        invariant
            m == catalog@,
            m.wf(),
            lang_listing(m, rows@, ids@),
            ids@.len() <= 65536,
            counts@.len() == languages_shown(m),
            forall|id: int| 0 <= id < counts@.len() ==> #[trigger] counts@[id] == lang_count(m, rows@, id),
            k <= ids@.len(),
            items@.len() == k + 1,
            items@[0]@ == "any"@,
            forall|j: int| 0 <= j < k ==> #[trigger] items@[j + 1]@ == lang_item(m, rows@, ids@[j] as int),
            all@ == seq![None].add(ids@.take(k as int).map_values(|i: u16| Some(i))),
        decreases ids@.len() - k,
    {
        let id = ids[k];
        assert(ids@.contains(id));
        assert(lang_listed(m, rows@, id as int));
        let name = catalog.language_name(id);
        proof {
            vstd::utf8::encode_utf8_decode_utf8(name@);
        }
        let mut item = String::from_str(name);
        item.append(" (");
        push_decimal(&mut item, counts[id as usize] as u64);
        item.append(")");
        assert(item@ == lang_item(m, rows@, id as int));
        items.push(item);
        all.push(Some(id));
        proof {
            assert(ids@.take(k + 1).map_values(|i: u16| Some(i)) =~= ids@.take(k as int).map_values(
                |i: u16| Some(i),
            ).push(Some(id)));
            assert(all@ =~= seq![None].add(ids@.take(k + 1).map_values(|i: u16| Some(i))));
        }
        k += 1;
    }
    assert(ids@.take(ids@.len() as int) =~= ids@);
    let selected = option_index(&all, current);
    proof {
        if all@.contains(current) {
            let w = choose|w: int| 0 <= w < all@.len() && all@[w] == current && forall|j: int| 0 <= j < w ==> all@[j] != current;
        }
        assert forall|i: int| 0 <= i < all@.len() implies (#[trigger] all@[i] matches Some(id) ==> (id as int) < m.languages.len()) by {
            if i > 0 {
                assert(all@[i] == Some(ids@[i - 1]));
                assert(ids@.contains(ids@[i - 1]));
            }
        }
    }
    let p = Picker { title: String::from_str("Language"), items, selected, kind: PickerKind::Language(all) };
    assert(lang_listing(m, rows@, ids@));
    p
}

/// The name of `row`, as text.
pub open spec fn row_name(m: CatalogModel, row: int) -> Seq<char> {
    decode_utf8(m.text(m.name[row]))
}

/// The ways to carry out `action` on `row` in state `a`.
pub open spec fn row_choices(a: App, row: Row, action: Action) -> Seq<(ManagerId, Seq<char>)> {
    choices_upto(
        row_packages(a.catalog@, row as int),
        action_mask(a.installed@.available[row as int], a.installed@.installed[row as int], action),
        MANAGER_COUNT as int,
    )
}

/// The ecosystems `row` is packaged for, by name.
pub open spec fn row_ecosystems(m: CatalogModel, row: int) -> Seq<Seq<char>> {
    row_packages(m, row).map_values(|p: (Ecosystem, Seq<char>)| crate::catalog::spec_eco_name(p.0))
}

/// What asking to carry out `action` on the row under the cursor does: with
/// no row nothing; with no way to do it, a status line that says why;
/// otherwise a confirmation listing each way's command line.
#[verifier::opaque]
pub open spec fn confirm_opened(before: App, after: App, action: Action) -> bool {
    match before.cursor_row() {
        None => after == before,
        Some(row) => {
            let cs = row_choices(before, row, action);
            let name = row_name(before.catalog@, row as int);
            if cs.len() == 0 {
                &&& after == (App { status: after.status, ..before })
                &&& after.status@ == "\u{2717} "@ + spec_impossible(
                    name,
                    row_ecosystems(before.catalog@, row as int),
                    action,
                    "press o to open its page"@,
                )
            } else {
                &&& after == (App { mode: after.mode, ..before })
                &&& after.mode matches Mode::Picker(p) && p.title@ == confirm_title(action, name) && views(p.items@)
                    == cs.map_values(|c: (ManagerId, Seq<char>)| choice_line(c, action, before.go_bin@, before.root))
                    && p.selected == 0 && (p.kind matches PickerKind::Confirm { action: a, row: r, choices }
                    && a == action && r == row && choices@.map_values(|c: Choice| choice_view(c)) == cs)
            }
        },
    }
}

impl App {
    pub(crate) fn open_language_picker(&mut self)
        requires
            old(self).wf(),
        ensures
            *final(self) == (App { mode: final(self).mode, ..*old(self) }),
            final(self).mode matches Mode::Picker(p) && language_picker_ok(p, old(self).catalog@, old(self).rows(), old(self).query.language),
            mode_ok(final(self).mode, final(self).catalog@),
            final(self).wf(),
    {
        let rows = self.view.rows_in_view();
        proof {
            reveal(view_ok);
            assert forall|i: int| 0 <= i < rows@.len() implies (#[trigger] rows@[i] as int) < self.catalog@.rows() by {
                assert(rows@.contains(rows@[i]));
            }
        }
        let p = language_picker(&self.catalog, rows, self.query.language);
        self.mode = Mode::Picker(p);
    }

    #[verifier::spinoff_prover]
    pub(crate) fn open_confirm(&mut self, action: Action)
        requires
            old(self).wf(),
        ensures
            confirm_opened(*old(self), *final(self), action),
            mode_ok(final(self).mode, final(self).catalog@),
            old(self).wf() ==> final(self).wf(),
    {
        reveal(picker_ok);
        reveal(confirm_opened);
        let row = match self.selected_row() {
            Some(r) => r,
            None => {
                return;
            },
        };
        proof {
            reveal(view_ok);
            reveal(masks_ok);
            assert(self.rows().contains(row));
        }
        let choices = self.installed.choices(&self.catalog, row, action);
        let ghost cs = row_choices(*self, row, action);
        if choices.len() == 0 {
            let why = impossible(&self.catalog, row, action, "press o to open its page");
            let mut status = String::from_str("\u{2717} ");
            status.append(why.as_str());
            proof {
                reveal_strlit("press o to open its page");
            }
            self.status = status;
            return;
        }
        let name = self.catalog.name(row);
        proof {
            vstd::utf8::encode_utf8_decode_utf8(name@);
            lemma_choice_managers(row_packages(self.catalog@, row as int), action_mask(self.installed@.available[row as int], self.installed@.installed[row as int], action), MANAGER_COUNT as int);
        }
        let mut items: Vec<String> = Vec::new();
        let mut k: usize = 0;
        while k < choices.len()
            invariant
                k <= choices@.len(),
                choices@.map_values(|c: Choice| choice_view(c)) == cs,
                forall|i: int| 0 <= i < cs.len() ==> (#[trigger] cs[i].0 as int) < MANAGER_COUNT,
                views(items@) == cs.take(k as int).map_values(|c: (ManagerId, Seq<char>)| choice_line(c, action, self.go_bin@, self.root)),
            decreases choices@.len() - k,
        {
            let c = &choices[k];
            assert(choice_view(*c) == cs[k as int]);
            assert((cs[k as int].0 as int) < MANAGER_COUNT);
            let m = manager(c.manager);
            let argv = m.argv(action, c.package.as_str(), self.go_bin.as_str(), self.root);
            let line = join(&argv, " ");
            let ghost before = views(items@);
            items.push(line);
            proof {
                assert(views(items@) =~= before.push(line@));
                assert(cs.take(k + 1).map_values(|c: (ManagerId, Seq<char>)| choice_line(c, action, self.go_bin@, self.root)) =~= cs.take(k as int).map_values(
                    |c: (ManagerId, Seq<char>)| choice_line(c, action, self.go_bin@, self.root),
                ).push(choice_line(cs[k as int], action, self.go_bin@, self.root)));
            }
            k += 1;
        }
        assert(cs.take(cs.len() as int) =~= cs);
        proof {
            assert forall|i: int| 0 <= i < choices@.len() implies (#[trigger] choices@[i].manager as int) < MANAGER_COUNT by {
                assert(choices@.map_values(|c: Choice| choice_view(c))[i] == choice_view(choices@[i]));
                assert(choice_view(choices@[i]) == cs[i]);
                assert((cs[i].0 as int) < MANAGER_COUNT);
            }
        }
        let mut title = String::from_str(match action {
            Action::Install => "Install ",
            Action::Uninstall => "Uninstall ",
            Action::Upgrade => "Upgrade ",
        });
        title.append(name);
        title.append("?");
        self.mode = Mode::Picker(Picker { title, items, selected: 0, kind: PickerKind::Confirm { action, row, choices } });
    }
}

/// The verb of an action, as job titles use it.
pub open spec fn action_verb(a: Action) -> Seq<char> {
    match a {
        Action::Install => "install"@,
        Action::Uninstall => "uninstall"@,
        Action::Upgrade => "upgrade"@,
    }
}

/// The job a confirmed choice starts.
pub open spec fn chosen_job(a: App, action: Action, row: Row, c: (ManagerId, Seq<char>)) -> (Action, ManagerId, Row, Seq<char>, Seq<Seq<char>>) {
    let m = spec_manager(c.0 as int);
    (
        action,
        c.0,
        row,
        action_verb(action) + " "@ + row_name(a.catalog@, row as int) + " ("@ + m.name@ + ")"@,
        spec_argv(m, action, c.1, a.go_bin@, a.root),
    )
}

/// What accepting picker `p` does to `before`, whose mode is already back
/// to normal: a preset or language filters the list, a theme is kept and
/// saved, a confirmed job runs in the terminal, starts, or waits its turn.
#[verifier::opaque]
pub open spec fn picked(before: App, p: Picker, after: App, effects: Seq<Effect>) -> bool {
    match p.kind {
        PickerKind::MinStars => effects.len() == 0 && refiltered(
            App { query: Query { min_stars: star_presets()[p.selected as int], ..before.query }, ..before },
            after,
            true,
        ),
        PickerKind::Language(ids) => effects.len() == 0 && refiltered(
            App { query: Query { language: ids@[p.selected as int], ..before.query }, ..before },
            after,
            true,
        ),
        PickerKind::Theme { original, filter, ids } => if p.selected < ids@.len() {
            let id = ids@[p.selected as int];
            &&& after == (App { theme: id, status: after.status, ..before })
            &&& after.status@ == "Theme: "@ + theme_names()[id as int]
            &&& effects.len() == 1
            &&& effects[0] matches Effect::SaveTheme(name) && name@ == theme_names()[id as int]
        } else {
            after == (App { theme: original, ..before }) && effects.len() == 0
        },
        PickerKind::Confirm { action, row, choices } => {
            let c = choice_view(choices@[p.selected as int]);
            let job = chosen_job(before, action, row, c);
            if spec_manager(c.0 as int).tty {
                &&& after == before
                &&& effects.len() == 1
                &&& effects[0] matches Effect::RunInTerminal(j) && job_view(j) == job
            } else if before.running is Some {
                &&& after == (App { status: after.status, queue: after.queue, ..before })
                &&& after.status@ == "Queued: "@ + job.3
                &&& after.queue@.len() == before.queue@.len() + 1
                &&& after.queue@.drop_last() == before.queue@
                &&& job_view(after.queue@.last()) == job
                &&& effects.len() == 0
            } else {
                &&& after == (App { status: after.status, log: after.log, running: after.running, ..before })
                &&& after.status@ == "Press v to watch the output"@
                &&& after.running matches Some(j) && job_view(j) == job
                &&& after.log@.len() == log_kept(before.log@).len() + 1
                &&& after.log@.last()@ == "$ "@ + join_with(job.4, " "@)
                &&& after.log@.drop_last() == log_kept(before.log@)
                &&& effects.len() == 1
                &&& effects[0] matches Effect::Spawn(j) && job_view(j) == job
            }
        },
    }
}

impl App {
    #[verifier::spinoff_prover]
    #[verifier::rlimit(60)]
    pub(crate) fn on_picked(&mut self, picker: Picker) -> (effects: Vec<Effect>)
        requires
            old(self).wf(),
            picker_ok(picker, old(self).catalog@),
        ensures
            picked(*old(self), picker, *final(self), effects@),
            final(self).wf(),
    {
        reveal(picker_ok);
        reveal(picked);
        let selected = picker.selected;
        match picker.kind {
            PickerKind::MinStars => {
                self.filter_stars(star_preset(selected));
                Vec::new()
            },
            PickerKind::Language(ids) => {
                self.filter_language(ids[selected]);
                Vec::new()
            },
            PickerKind::Theme { original, filter, ids } => self.picked_theme(selected, original, &ids),
            PickerKind::Confirm { action, row, choices } => self.picked_confirm(action, row, &choices[selected]),
        }
    }

    pub(crate) fn filter_stars(&mut self, min: u32)
        requires
            old(self).wf(),
        ensures
            refiltered(App { query: Query { min_stars: min, ..old(self).query }, ..*old(self) }, *final(self), true),
            final(self).wf(),
    {
        self.query.min_stars = min;
        let ghost mid = *self;
        self.refilter(true);
        proof {
            lemma_refiltered(mid, *self, true);
        }
    }

    pub(crate) fn filter_language(&mut self, language: Option<u16>)
        requires
            old(self).wf(),
        ensures
            refiltered(App { query: Query { language, ..old(self).query }, ..*old(self) }, *final(self), true),
            final(self).wf(),
    {
        self.query.language = language;
        let ghost mid = *self;
        self.refilter(true);
        proof {
            lemma_refiltered(mid, *self, true);
        }
    }

    pub(crate) fn picked_theme(&mut self, selected: usize, original: usize, ids: &Vec<usize>) -> (effects: Vec<Effect>)
        requires
            old(self).wf(),
            original < THEME_COUNT,
            forall|i: int| 0 <= i < ids@.len() ==> #[trigger] ids@[i] < THEME_COUNT,
        ensures
            final(self).wf(),
            if selected < ids@.len() {
                let id = ids@[selected as int];
                &&& *final(self) == (App { theme: id, status: final(self).status, ..*old(self) })
                &&& final(self).status@ == "Theme: "@ + theme_names()[id as int]
                &&& effects@.len() == 1
                &&& effects@[0] matches Effect::SaveTheme(name) && name@ == theme_names()[id as int]
            } else {
                *final(self) == (App { theme: original, ..*old(self) }) && effects@.len() == 0
            },
    {
        if selected >= ids.len() {
            self.theme = original;
            return Vec::new();
        }
        let id = ids[selected];
        let table = theme_list();
        proof {
            assert(theme_names().len() == THEME_COUNT) by {
                reveal(theme_names);
            }
            assert(table@.map_values(|s: &str| s@)[id as int] == table@[id as int]@);
        }
        let name = table[id];
        self.theme = id;
        let mut status = String::from_str("Theme: ");
        status.append(name);
        self.status = status;
        vec![Effect::SaveTheme(name)]
    }

    pub(crate) fn picked_confirm(&mut self, action: Action, row: Row, choice: &Choice) -> (effects: Vec<Effect>)
        requires
            old(self).wf(),
            (row as int) < old(self).catalog@.rows(),
            choice.manager < MANAGER_COUNT,
        ensures
            final(self).wf(),
            ({
                let job = chosen_job(*old(self), action, row, choice_view(*choice));
                if spec_manager(choice.manager as int).tty {
                    &&& *final(self) == *old(self)
                    &&& effects@.len() == 1
                    &&& effects@[0] matches Effect::RunInTerminal(j) && job_view(j) == job
                } else if old(self).running is Some {
                    &&& *final(self) == (App { status: final(self).status, queue: final(self).queue, ..*old(self) })
                    &&& final(self).status@ == "Queued: "@ + job.3
                    &&& final(self).queue@.len() == old(self).queue@.len() + 1
                    &&& final(self).queue@.drop_last() == old(self).queue@
                    &&& job_view(final(self).queue@.last()) == job
                    &&& effects@.len() == 0
                } else {
                    &&& *final(self) == (App { status: final(self).status, log: final(self).log, running: final(self).running, ..*old(self) })
                    &&& final(self).status@ == "Press v to watch the output"@
                    &&& final(self).running matches Some(j) && job_view(j) == job
                    &&& final(self).log@.len() == log_kept(old(self).log@).len() + 1
                    &&& final(self).log@.last()@ == "$ "@ + join_with(job.4, " "@)
                    &&& final(self).log@.drop_last() == log_kept(old(self).log@)
                    &&& effects@.len() == 1
                    &&& effects@[0] matches Effect::Spawn(j) && job_view(j) == job
                }
            }),
    {
        let ghost before = *self;
        let m = manager(choice.manager);
        let name = self.catalog.name(row);
        proof {
            vstd::utf8::encode_utf8_decode_utf8(name@);
        }
        let mut title = String::from_str(action.verb());
        title.append(" ");
        title.append(name);
        title.append(" (");
        title.append(m.name);
        title.append(")");
        let argv = m.argv(action, choice.package.as_str(), self.go_bin.as_str(), self.root);
        let job = Job { action, manager: choice.manager, row, title, argv };
        assert(job_view(job) == chosen_job(before, action, row, choice_view(*choice)));
        if m.tty {
            return vec![Effect::RunInTerminal(job)];
        }
        if self.running.is_some() {
            let mut status = String::from_str("Queued: ");
            status.append(job.title.as_str());
            self.status = status;
            self.queue.push_back(job);
            return Vec::new();
        }
        self.status = String::from_str("Press v to watch the output");
        let e = self.start(job);
        vec![e]
    }
}

/// The optional text as plain values.
pub open spec fn text_view(t: Option<String>) -> Option<Seq<char>> {
    match t {
        Some(s) => Some(s@),
        None => None,
    }
}

/// What a key does to the theme search: `/` opens it, esc or enter close
/// it, and while it is open the editing keys edit it. `None` when the key
/// leaves it alone.
pub open spec fn theme_edit(filter: Option<Seq<char>>, key: Key, ctrl: bool) -> Option<Option<Seq<char>>> {
    match filter {
        None => if key == Key::Char('/') {
            Some(Some(seq![]))
        } else {
            None
        },
        Some(t) => if key == Key::Esc || key == Key::Enter {
            Some(None)
        } else {
            match spec_edit(t, key, ctrl, 32) {
                Some(t2) => Some(Some(t2)),
                None => None,
            }
        },
    }
}

/// The theme previewed once a picker of `kind` has row `selected` selected.
pub open spec fn moved_theme(kind: PickerKind, selected: int, theme: usize) -> usize {
    match kind {
        PickerKind::Theme { ids, .. } => if 0 <= selected < ids@.len() {
            ids@[selected]
        } else {
            theme
        },
        _ => theme,
    }
}

/// What `y` copies in a picker that is not a confirmation: a language's
/// name, or the text of the row.
pub open spec fn picker_copy(m: CatalogModel, p: Picker) -> Option<Seq<char>> {
    let item = if p.selected < p.items@.len() {
        Some(p.items@[p.selected as int]@)
    } else {
        None
    };
    match p.kind {
        PickerKind::Language(ids) => if p.selected < ids@.len() && ids@[p.selected as int] is Some {
            Some(decode_utf8(m.text(m.languages[ids@[p.selected as int]->0 as int])))
        } else {
            item
        },
        _ => item,
    }
}

/// `effects` copy `text`, when there is one.
pub open spec fn copies(effects: Seq<Effect>, text: Option<Seq<char>>) -> bool {
    match text {
        Some(t) => effects.len() == 1 && (effects[0] matches Effect::Copy(x) && x@ == t),
        None => effects.len() == 0,
    }
}

/// Whether `k` is the character key `c`.
pub open spec fn is_char(k: Key, c: char) -> bool {
    k == Key::Char(c)
}

/// What a key does in picker `p`: in the theme picker `/` searches; the
/// motion keys move (previewing themes); `y` copies; enter (and `y` in a
/// confirmation) accepts; esc, `q` and `n` cancel, restoring the theme.
#[verifier::opaque]
pub open spec fn picker_key_on(before: App, p: Picker, after: App, key: Key, ctrl: bool, count: int, effects: Seq<Effect>) -> bool {
    let edit = match p.kind {
        PickerKind::Theme { original, filter, ids } => theme_edit(text_view(filter), key, ctrl),
        _ => None,
    };
    if edit is Some {
        let original = match p.kind {
            PickerKind::Theme { original, .. } => original,
            _ => 0,
        };
        &&& after == (App { mode: after.mode, theme: after.theme, ..before })
        &&& effects.len() == 0
        &&& after.mode matches Mode::Picker(q) && theme_picker_ok(q, before.theme, original, edit->0)
            && after.theme == moved_theme(q.kind, q.selected as int, original)
    } else {
        picker_list_on(before, p, after, key, count, effects)
    }
}

/// What a key that does not edit a search does in picker `p`.
#[verifier::opaque]
pub open spec fn picker_list_on(before: App, p: Picker, after: App, key: Key, count: int, effects: Seq<Effect>) -> bool {
    match spec_list_motion(key, false, p.selected as int, p.items@.len() as int, before.page as int, count) {
        Some(to) => {
            &&& after == (App {
                mode: Mode::Picker(Picker { selected: to as usize, ..p }),
                theme: moved_theme(p.kind, to, before.theme),
                ..before
            })
            &&& effects.len() == 0
        },
        None => if is_char(key, 'y') && !(p.kind is Confirm) {
            after == before && copies(effects, picker_copy(before.catalog@, p))
        } else if key == Key::Enter || is_char(key, 'y') {
            picked(App { mode: Mode::Normal, ..before }, p, after, effects)
        } else if key == Key::Esc || is_char(key, 'q') || is_char(key, 'n') {
            &&& after == (App {
                mode: Mode::Normal,
                theme: match p.kind {
                    PickerKind::Theme { original, .. } => original,
                    _ => before.theme,
                },
                ..before
            })
            &&& effects.len() == 0
        } else {
            after == (App { theme: moved_theme(p.kind, p.selected as int, before.theme), ..before })
                && effects.len() == 0
        },
    }
}

/// Edits the theme search with `key`: whether it did, and the search after.
fn theme_filter_key(filter: Option<String>, key: Key, ctrl: bool) -> (r: (Option<String>, bool))
    ensures
        r.1 == (theme_edit(text_view(filter), key, ctrl) is Some),
        r.1 ==> text_view(r.0) == theme_edit(text_view(filter), key, ctrl)->0,
        !r.1 ==> r.0 == filter,
{
    match filter {
        None => if key == Key::Char('/') {
            (Some(String::new()), true)
        } else {
            (None, false)
        },
        Some(mut t) => if key == Key::Esc || key == Key::Enter {
            (None, true)
        } else {
            let editing = match key {
                Key::Backspace | Key::Char(_) => true,
                _ => false,
            };
            proof {
                crate::keys::lemma_edit_keys(t@, key, ctrl, 32);
            }
            if editing {
                let edited = edit(&mut t, key, ctrl, 32);
                (Some(t), true)
            } else {
                (Some(t), false)
            }
        },
    }
}

/// The edit a key makes to the search of picker `p`, if it is a theme picker.
pub open spec fn picker_edit(p: Picker, key: Key, ctrl: bool) -> Option<Option<Seq<char>>> {
    match p.kind {
        PickerKind::Theme { original, filter, ids } => theme_edit(text_view(filter), key, ctrl),
        _ => None,
    }
}

impl App {
    /// Moves, copies, accepts or cancels in the open picker.
    pub(crate) fn on_picker_key(&mut self, key: Key, ctrl: bool, count: usize) -> (effects: Vec<Effect>)
        requires
            old(self).wf(),
            old(self).mode is Picker,
            count <= MAX_COUNT,
        ensures
            match old(self).mode {
                Mode::Picker(p) => picker_key_on(*old(self), p, *final(self), key, ctrl, count as int, effects@),
                _ => false,
            },
            final(self).wf(),
    {
        reveal(picker_key_on);
        let mut mode = Mode::Normal;
        std::mem::swap(&mut mode, &mut self.mode);
        let picker = match mode {
            Mode::Picker(p) => p,
            other => {
                self.mode = other;
                return Vec::new();
            },
        };
        match self.picker_search_key(picker, key, ctrl) {
            Ok(effects) => effects,
            Err(picker) => self.picker_list_key(picker, key, ctrl, count),
        }
    }

    /// The theme search: `/` opens it, esc or enter close it, typing edits
    /// it. Hands the picker back when the key is no search key.
    #[verifier::spinoff_prover]
    pub(crate) fn picker_search_key(&mut self, picker: Picker, key: Key, ctrl: bool) -> (r: Result<Vec<Effect>, Picker>)
        requires
            old(self).mode == Mode::Normal,
            (App { mode: Mode::Picker(picker), ..*old(self) }).wf(),
        ensures
            match r {
                Ok(effects) => picker_edit(picker, key, ctrl) is Some && picker_key_on(
                    App { mode: Mode::Picker(picker), ..*old(self) },
                    picker,
                    *final(self),
                    key,
                    ctrl,
                    0,
                    effects@,
                ) && final(self).wf(),
                Err(q) => picker_edit(picker, key, ctrl) is None && q == picker && *final(self) == *old(self),
            },
    {
        reveal(picker_key_on);
        proof {
            reveal(picker_ok);
        }
        let Picker { title, items, selected, kind } = picker;
        match kind {
            PickerKind::Theme { original, filter, ids } => {
                let (filter, edited) = theme_filter_key(filter, key, ctrl);
                if edited {
                    let q = self.theme_picker(original, filter);
                    let theme = match &q.kind {
                        PickerKind::Theme { ids, .. } => if q.selected < ids.len() {
                            ids[q.selected]
                        } else {
                            original
                        },
                        _ => original,
                    };
                    self.theme = theme;
                    self.mode = Mode::Picker(q);
                    Ok(Vec::new())
                } else {
                    Err(Picker { title, items, selected, kind: PickerKind::Theme { original, filter, ids } })
                }
            },
            other => Err(Picker { title, items, selected, kind: other }),
        }
    }

    /// Motions, copying, accepting and cancelling in a picker.
    #[verifier::spinoff_prover]
    #[verifier::rlimit(100)]
    pub(crate) fn picker_list_key(&mut self, picker: Picker, key: Key, ctrl: bool, count: usize) -> (effects: Vec<Effect>)
        requires
            old(self).mode == Mode::Normal,
            (App { mode: Mode::Picker(picker), ..*old(self) }).wf(),
            count <= MAX_COUNT,
            picker_edit(picker, key, ctrl) is None,
        ensures
            picker_list_on(
                App { mode: Mode::Picker(picker), ..*old(self) },
                picker,
                *final(self),
                key,
                count as int,
                effects@,
            ),
            final(self).wf(),
    {
        reveal(picker_list_on);
        reveal(picker_ok);
        let mut picker = picker;
        match list_motion(key, false, picker.selected, picker.items.len(), self.page, count) {
            Some(to) => {
                picker.selected = to;
                self.preview(picker);
                Vec::new()
            },
            None => self.picker_command(picker, key),
        }
    }

    /// Puts `picker` back, previewing the theme it has selected.
    pub(crate) fn preview(&mut self, picker: Picker)
        requires
            old(self).wf(),
            picker_ok(picker, old(self).catalog@),
        ensures
            *final(self) == (App {
                mode: Mode::Picker(picker),
                theme: moved_theme(picker.kind, picker.selected as int, old(self).theme),
                ..*old(self)
            }),
            final(self).wf(),
    {
        reveal(picker_ok);
        let theme = match &picker.kind {
            PickerKind::Theme { ids, .. } => if picker.selected < ids.len() {
                ids[picker.selected]
            } else {
                self.theme
            },
            _ => self.theme,
        };
        self.theme = theme;
        self.mode = Mode::Picker(picker);
    }

    /// Copying, accepting and cancelling in a picker.
    #[verifier::spinoff_prover]
    pub(crate) fn picker_command(&mut self, picker: Picker, key: Key) -> (effects: Vec<Effect>)
        requires
            old(self).mode == Mode::Normal,
            (App { mode: Mode::Picker(picker), ..*old(self) }).wf(),
        ensures
            ({
                let before = App { mode: Mode::Picker(picker), ..*old(self) };
                if is_char(key, 'y') && !(picker.kind is Confirm) {
                    *final(self) == before && copies(effects@, picker_copy(before.catalog@, picker))
                } else if key == Key::Enter || is_char(key, 'y') {
                    picked(App { mode: Mode::Normal, ..before }, picker, *final(self), effects@)
                } else if key == Key::Esc || is_char(key, 'q') || is_char(key, 'n') {
                    &&& *final(self) == (App {
                        mode: Mode::Normal,
                        theme: match picker.kind {
                            PickerKind::Theme { original, .. } => original,
                            _ => before.theme,
                        },
                        ..before
                    })
                    &&& effects@.len() == 0
                } else {
                    *final(self) == (App { theme: moved_theme(picker.kind, picker.selected as int, before.theme), ..before })
                        && effects@.len() == 0
                }
            }),
            final(self).wf(),
    {
        reveal(picker_ok);
        let is_confirm = match &picker.kind {
            PickerKind::Confirm { .. } => true,
            _ => false,
        };
        if key == Key::Char('y') && !is_confirm {
            let text: Option<String> = match &picker.kind {
                PickerKind::Language(ids) if ids[picker.selected].is_some() => {
                    let id = ids[picker.selected].unwrap();
                    let name = self.catalog.language_name(id);
                    proof {
                        vstd::utf8::encode_utf8_decode_utf8(name@);
                    }
                    Some(String::from_str(name))
                },
                _ => if picker.selected < picker.items.len() {
                    Some(picker.items[picker.selected].clone())
                } else {
                    None
                },
            };
            self.mode = Mode::Picker(picker);
            return match text {
                Some(t) => vec![Effect::Copy(t)],
                None => Vec::new(),
            };
        }
        if key == Key::Enter || key == Key::Char('y') {
            return self.on_picked(picker);
        }
        if key == Key::Esc || key == Key::Char('q') || key == Key::Char('n') {
            match picker.kind {
                PickerKind::Theme { original, .. } => {
                    self.theme = original;
                },
                _ => {},
            }
            return Vec::new();
        }
        self.preview(picker);
        Vec::new()
    }
}

} // verus!
