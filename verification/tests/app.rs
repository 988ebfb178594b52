use tuiman::app::{App, Effect, Event, IndexUpdate, Job, Mode, PickerKind, FLASH_TICKS, LOG_LINES};
use tuiman::catalog::{Builder, Catalog, Ecosystem, Entry, FLAG_ARCHIVED, FLAG_LIBRARY};
use tuiman::hints::{hints, hints_that_fit};
use tuiman::installed::Installed;
use tuiman::jobs::RowMark;
use tuiman::keys::{help_table, Help, Key};
use tuiman::managers::{by_name, Action, ManagerId};
use tuiman::query::Query;
use tuiman::theme::{names as theme_names, THEME_COUNT};

fn catalog() -> Catalog {
    let mut b = Builder::new(0);
    let mut push = |name: &str,
                    category: &str,
                    language: &str,
                    stars: Option<u32>,
                    pushed_days: Option<u32>,
                    flags: u8,
                    packages: &[(Ecosystem, &str)]| {
        let url = format!("https://github.com/o/{name}");
        let desc = format!("{name} description");
        b.push(&Entry {
            name,
            desc: &desc,
            url: &url,
            category,
            language,
            stars,
            pushed_days,
            flags,
            packages,
            ..Entry::default()
        })
        .unwrap();
    };
    push("btop", "Dashboards", "C++", Some(20_000), Some(20_700), 0, &[(Ecosystem::Brew, "btop"), (Ecosystem::Apt, "btop")]);
    push("bottom", "Dashboards", "Rust", Some(10_000), Some(20_600), 0, &[(Ecosystem::Crates, "bottom")]);
    push(
        "lazygit",
        "Development",
        "Go",
        Some(50_000),
        Some(20_710),
        0,
        &[(Ecosystem::Brew, "lazygit"), (Ecosystem::Go, "github.com/jesseduffield/lazygit")],
    );
    push("oldtool", "Development", "C", Some(300), Some(15_000), FLAG_ARCHIVED, &[]);
    push("ratatui", "Libraries", "Rust", Some(9_000), Some(20_715), FLAG_LIBRARY, &[(Ecosystem::Crates, "ratatui")]);
    push("mystery", "Web", "", None, None, 0, &[(Ecosystem::Nix, "mystery")]);
    b.finish()
}

fn detected(names: &[&str]) -> Vec<(ManagerId, String)> {
    names.iter().map(|n| (by_name(n).unwrap(), n.to_string())).collect()
}

fn app(managers: &[&str]) -> App {
    let c = catalog();
    let installed = Installed::new(detected(managers), &c);
    App::new(c, installed, 20_717)
}

fn press(app: &mut App, key: Key) -> Vec<Effect> {
    app.update(Event::Key { key, ctrl: false })
}

fn ctrl(app: &mut App, c: char) -> Vec<Effect> {
    app.update(Event::Key { key: Key::Char(c), ctrl: true })
}

fn type_text(app: &mut App, text: &str) {
    text.chars().for_each(|c| drop(press(app, Key::Char(c))));
}

fn selected_name(app: &App) -> String {
    app.catalog.name(app.selected_row().unwrap()).to_owned()
}

fn help_rows(help: &Help) -> Vec<(&'static str, &'static str)> {
    help.rows()
}

#[test]
fn navigation_clamps_and_scrolls() {
    let mut app = app(&[]);
    app.set_layout(2, true);
    assert_eq!(selected_name(&app), "lazygit");
    press(&mut app, Key::Char('k'));
    assert_eq!((app.selected, app.offset), (4, 3), "k at the top wraps to the bottom");
    press(&mut app, Key::Char('j'));
    assert_eq!((app.selected, app.offset), (0, 0), "j at the bottom wraps to the top");
    press(&mut app, Key::Char('G'));
    assert_eq!((app.selected, app.offset), (4, 3));
    type_text(&mut app, "gg");
    assert_eq!((app.selected, app.offset), (0, 0));

    press(&mut app, Key::Char('G'));
    press(&mut app, Key::Char('s'));
    assert_eq!((app.selected, app.offset), (0, 0), "a new sort order starts at the top");
}

#[test]
fn counts_repeat_motions() {
    let mut app = app(&[]);
    type_text(&mut app, "3j");
    assert_eq!(app.selected, 3);
    type_text(&mut app, "2kj");
    assert_eq!(app.selected, 2, "a count applies to one motion only");
    type_text(&mut app, "10j");
    assert_eq!(app.selected, 4, "clamped to the last row");
    type_text(&mut app, "2G");
    assert_eq!(app.selected, 4, "G goes to the bottom whatever the count");
    app.set_layout(4, true);
    type_text(&mut app, "G(");
    assert_eq!(app.selected, 2, "( goes up half a page");
    type_text(&mut app, ")");
    assert_eq!(app.selected, 4);
    type_text(&mut app, "3gg");
    assert_eq!(app.selected, 2, "3gg goes to row 3");
    type_text(&mut app, "gg0j");
    assert_eq!(app.selected, 1, "a leading 0 is not a count");
}

#[test]
fn parens_page_through_help() {
    let mut app = app(&[]);
    app.set_layout(4, true);
    press(&mut app, Key::Char('?'));
    press(&mut app, Key::Char(')'));
    assert!(matches!(&app.mode, Mode::Help(h) if h.selected == 2));
    press(&mut app, Key::Char('('));
    assert!(matches!(&app.mode, Mode::Help(h) if h.selected == 0));

    app.set_layout(40, true);
    press(&mut app, Key::Char(')'));
    assert!(
        matches!(&app.mode, Mode::Help(h) if h.selected == help_table().len() / 2),
        "half of the box, not the table"
    );
    press(&mut app, Key::Esc);

    press(&mut app, Key::Char('t'));
    press(&mut app, Key::Char(')'));
    assert!(matches!(&app.mode, Mode::Picker(p) if p.selected == THEME_COUNT / 2));
    assert_eq!(app.theme, THEME_COUNT / 2, "the theme previews as it moves");
    type_text(&mut app, "3k");
    assert!(matches!(&app.mode, Mode::Picker(p) if p.selected == THEME_COUNT / 2 - 3));
    type_text(&mut app, "3g");
    assert!(matches!(&app.mode, Mode::Picker(p) if p.selected == THEME_COUNT / 2 - 3), "one g waits");
    type_text(&mut app, "g");
    assert!(matches!(&app.mode, Mode::Picker(p) if p.selected == 2), "3gg goes to the third theme");
    press(&mut app, Key::Esc);

    press(&mut app, Key::Char('?'));
    type_text(&mut app, "5j2k");
    assert!(matches!(&app.mode, Mode::Help(h) if h.selected == 3), "counts work in help");
    type_text(&mut app, "/2");
    assert!(
        matches!(&app.mode, Mode::Help(h) if h.filter.as_deref() == Some("2")),
        "digits search once / is open"
    );
}

#[test]
fn search_filters_live_and_escape_clears() {
    let mut app = app(&[]);
    press(&mut app, Key::Char('/'));
    type_text(&mut app, "bott");
    assert_eq!(app.mode, Mode::Search);
    assert_eq!(selected_name(&app), "bottom");
    press(&mut app, Key::Enter);
    assert_eq!((&app.mode, app.query.text.as_str()), (&Mode::Normal, "bott"));
    press(&mut app, Key::Esc);
    assert_eq!(app.view.rows.len(), 5);
    assert_eq!(selected_name(&app), "bottom", "cursor stays on the same TUI");
}

#[test]
fn enter_in_search_keeps_the_arrowed_row() {
    let mut app = app(&[]);
    press(&mut app, Key::Char('/'));
    press(&mut app, Key::Down);
    press(&mut app, Key::Enter);
    assert_eq!((&app.mode, app.selected), (&Mode::Normal, 1));
}

#[test]
fn typing_q_in_search_does_not_quit() {
    let mut app = app(&[]);
    press(&mut app, Key::Char('/'));
    assert!(press(&mut app, Key::Char('q')).is_empty());
    assert_eq!(app.query.text, "q");
}

#[test]
fn categories_cycle_through_all() {
    let mut app = app(&[]);
    press(&mut app, Key::Tab);
    assert_eq!(app.query.category, Some(0));
    press(&mut app, Key::BackTab);
    press(&mut app, Key::BackTab);
    assert_eq!(app.query.category, Some(app.catalog.category_count() as u8 - 1));
}

#[test]
fn left_right_focus_panels_and_up_down_move_in_them() {
    let mut app = app(&[]);
    press(&mut app, Key::Left);
    press(&mut app, Key::Up);
    assert_eq!(app.query.category, Some(app.catalog.category_count() as u8 - 1), "wraps past All");
    press(&mut app, Key::Down);
    assert_eq!(app.query.category, None, "wraps back to All");
    press(&mut app, Key::Down);
    assert_eq!((app.query.category, app.selected), (Some(0), 0));
    assert!(press(&mut app, Key::Enter).is_empty(), "enter leaves the sidebar, not install");
    press(&mut app, Key::Left);
    press(&mut app, Key::Right);
    press(&mut app, Key::Down);
    assert_eq!((app.query.category, app.selected), (Some(0), 1));

    app.set_layout(4, true);
    press(&mut app, Key::Left);
    press(&mut app, Key::Char(')'));
    assert_eq!(app.query.category, Some(2), ") moves half a page of categories");
    press(&mut app, Key::Char('('));
    assert_eq!(app.query.category, Some(0));
    type_text(&mut app, "3gg");
    assert_eq!(app.query.category, Some(1), "3gg goes to the third row, All being the first");
    let selected = app.selected;
    type_text(&mut app, "3gg");
    assert_eq!((app.query.category, app.selected), (Some(1), selected), "3gg on row 3 leaves the list alone");
    type_text(&mut app, "gg");
    assert_eq!(app.query.category, None);
    press(&mut app, Key::Right);
    app.set_layout(20, true);

    press(&mut app, Key::Left);
    app.set_layout(20, false);
    assert!(!app.sidebar_focused, "a resize that drops the sidebar drops its focus");
    press(&mut app, Key::Left);
    assert!(!app.sidebar_focused, "a hidden sidebar cannot be focused");
}

#[test]
fn slash_in_the_sidebar_finds_a_category() {
    let mut app = app(&[]);
    press(&mut app, Key::Left);
    press(&mut app, Key::Char('/'));
    type_text(&mut app, "LIB");
    let category = app.query.category.expect("jumped to a category");
    assert_eq!(app.catalog.category_name(category), "Libraries");
    type_text(&mut app, "zz");
    assert_eq!(app.query.category, Some(category), "no match keeps the last hit");
    press(&mut app, Key::Esc);
    assert_eq!((&app.mode, app.query.category, app.sidebar_focused), (&Mode::Normal, None, true));

    press(&mut app, Key::Char('/'));
    type_text(&mut app, "dev");
    press(&mut app, Key::Enter);
    let category = app.query.category.expect("kept the category");
    assert_eq!(app.catalog.category_name(category), "Development");
    assert_eq!((&app.mode, app.sidebar_focused), (&Mode::Normal, true), "enter only closes the search");
    assert!(app.query.text.is_empty(), "the list search is untouched");

    press(&mut app, Key::Char('/'));
    press(&mut app, Key::Down);
    assert_eq!(app.query.category, Some(category + 1), "arrows move while searching");
}

#[test]
fn star_picker_applies_a_preset() {
    let mut app = app(&[]);
    press(&mut app, Key::Char('*'));
    for _ in 0..5 {
        press(&mut app, Key::Char('j'));
    }
    press(&mut app, Key::Enter);
    assert_eq!(app.query.min_stars, 10_000);
    assert_eq!(app.view.rows.len(), 3);
    press(&mut app, Key::Char('c'));
    assert_eq!(app.query, Query::default());
}

#[test]
fn theme_picker_previews_saves_and_cancels() {
    let mut app = app(&[]);
    press(&mut app, Key::Char('t'));
    press(&mut app, Key::Char('j'));
    assert_eq!(app.theme, 1, "moving previews");
    press(&mut app, Key::Esc);
    assert_eq!(app.theme, 0, "esc restores");
    press(&mut app, Key::Char('t'));
    press(&mut app, Key::Char('j'));
    press(&mut app, Key::Char('j'));
    assert_eq!(press(&mut app, Key::Enter), [Effect::SaveTheme(theme_names()[2])]);
    assert_eq!(app.theme, 2);
}

#[test]
fn theme_picker_searches_after_slash() {
    let mut app = app(&[]);
    press(&mut app, Key::Char('t'));
    press(&mut app, Key::Char('/'));
    type_text(&mut app, "NORD");
    let Mode::Picker(picker) = &app.mode else { panic!("no picker") };
    assert_eq!(picker.items, ["nord"]);
    assert_eq!(theme_names()[app.theme], "nord", "the match previews");
    type_text(&mut app, "x");
    assert_eq!(press(&mut app, Key::Enter), [], "enter closes the search");
    assert_eq!(app.theme, 0, "no match keeps the original");
    press(&mut app, Key::Esc);
    press(&mut app, Key::Char('t'));
    press(&mut app, Key::Char('/'));
    type_text(&mut app, "q");
    press(&mut app, Key::Esc);
    let Mode::Picker(picker) = &app.mode else { panic!("esc only clears the search") };
    assert_eq!(picker.items.len(), THEME_COUNT);
    press(&mut app, Key::Char('G'));
    assert_eq!(app.theme, THEME_COUNT - 1, "G previews the last theme");
    type_text(&mut app, "gg");
    assert_eq!(app.theme, 0, "gg previews the first theme");
    press(&mut app, Key::Char('/'));
    type_text(&mut app, "g");
    let Mode::Picker(picker) = &app.mode else { panic!("g closed the picker") };
    assert!(matches!(&picker.kind, PickerKind::Theme { filter: Some(f), .. } if f == "g"), "g is typed");
    press(&mut app, Key::End);
    let Mode::Picker(picker) = &app.mode else { panic!("end closed the picker") };
    assert_eq!(picker.selected, picker.items.len() - 1, "end still jumps while searching");
}

#[test]
fn help_filters_after_slash() {
    let mut app = app(&[]);
    press(&mut app, Key::Char('?'));
    press(&mut app, Key::Char('/'));
    type_text(&mut app, "qx");
    press(&mut app, Key::Backspace);
    press(&mut app, Key::Left);
    type_text(&mut app, "éu");
    press(&mut app, Key::Down);
    let Mode::Help(help) = &app.mode else { panic!("help closed") };
    assert_eq!(help.filter.as_deref(), Some("qéu"), "q is typed, not quit");
    assert_eq!(help.selected, 0, "down clamps to the (empty) list");
    type_text(&mut app, " ab cd");
    ctrl(&mut app, 'w');
    let Mode::Help(help) = &app.mode else { panic!("help closed") };
    assert_eq!(help.filter.as_deref(), Some("qéu ab "), "ctrl-w drops a word");
    ctrl(&mut app, 'u');
    let Mode::Help(help) = &app.mode else { panic!("help closed") };
    assert_eq!(help.filter.as_deref(), Some(""), "ctrl-u clears");
    type_text(&mut app, &"x".repeat(40));
    let Mode::Help(help) = &app.mode else { panic!("typing past the limit closed help") };
    assert_eq!(help.filter.as_deref().map(str::len), Some(32));
    ctrl(&mut app, 'u');
    press(&mut app, Key::Esc);
    let Mode::Help(help) = &app.mode else { panic!("esc closes help while searching") };
    assert_eq!(help.filter, None, "first esc clears the search");
    press(&mut app, Key::Char('G'));
    let Mode::Help(help) = &app.mode else { panic!("G closes help") };
    assert_eq!(help.selected, help_table().len() - 1);
    press(&mut app, Key::Char('/'));
    type_text(&mut app, "theme");
    press(&mut app, Key::Enter);
    let Mode::Help(help) = &app.mode else { panic!("enter closes help while searching") };
    assert_eq!(
        (help.filter.as_deref(), help_table()[help.selected].1),
        (None, "colour theme"),
        "enter keeps the entry"
    );
    press(&mut app, Key::Esc);
    assert_eq!(app.mode, Mode::Normal);

    press(&mut app, Key::Char('?'));
    press(&mut app, Key::Down);
    press(&mut app, Key::Char('j'));
    press(&mut app, Key::Up);
    let Mode::Help(help) = &app.mode else { panic!("arrows close help") };
    assert_eq!(help.selected, 1);
    press(&mut app, Key::Char('x'));
    assert_eq!(app.mode, Mode::Normal);

    let help = Help { filter: Some("L".into()), ..Help::default() };
    assert_eq!(help_rows(&help).iter().map(|(keys, _)| *keys).collect::<Vec<_>>(), ["L"], "keys match by case");
}

#[test]
fn y_copies_in_every_panel() {
    let copied = |effects: Vec<Effect>| match effects.as_slice() {
        [Effect::Copy(text)] => text.clone(),
        other => panic!("expected a copy, got {other:?}"),
    };
    let mut app = app(&[]);
    assert_eq!(copied(press(&mut app, Key::Char('y'))), "lazygit");
    press(&mut app, Key::Char('h'));
    assert_eq!(copied(press(&mut app, Key::Char('y'))), "All");
    press(&mut app, Key::Char('j'));
    let category = app.catalog.category_name(app.query.category.unwrap()).to_owned();
    assert_eq!(copied(press(&mut app, Key::Char('y'))), category);

    press(&mut app, Key::Char('l'));
    press(&mut app, Key::Char('t'));
    assert_eq!(copied(press(&mut app, Key::Char('y'))), theme_names()[app.theme]);
    assert!(matches!(app.mode, Mode::Picker(_)), "copying keeps the picker open");
    press(&mut app, Key::Char('/'));
    type_text(&mut app, "zzz");
    assert!(press(&mut app, Key::Enter).is_empty(), "enter closes the search");
    press(&mut app, Key::Esc);

    press(&mut app, Key::Char('?'));
    let first = help_table()[0];
    assert_eq!(copied(press(&mut app, Key::Char('y'))), format!("{}  {}", first.0, first.1));
    press(&mut app, Key::Esc);

    press(&mut app, Key::Char('v'));
    app.log.extend(["one".to_owned(), "two".to_owned()]);
    assert_eq!(copied(press(&mut app, Key::Char('y'))), "one\ntwo");
    assert_eq!(app.mode, Mode::Log);
}

#[test]
fn language_picker_lists_languages_in_view() {
    let mut app = app(&[]);
    press(&mut app, Key::Char('L'));
    let Mode::Picker(picker) = &app.mode else { panic!("no picker") };
    assert_eq!(picker.items, ["any", "Rust (2)", "C++ (1)", "Go (1)"]);
    press(&mut app, Key::Char('j'));
    press(&mut app, Key::Enter);
    assert_eq!(app.view.rows.len(), 2);
}

#[test]
fn a_pressed_key_lights_its_hint_for_a_while() {
    let mut app = app(&[]);
    assert!(!app.busy());
    press(&mut app, Key::Char('s'));
    assert!(app.flash > 0 && app.busy(), "ticks run while the hint is lit");
    for _ in 0..FLASH_TICKS {
        app.update(Event::Tick);
    }
    assert_eq!(app.flash, 0);
    assert!(!app.busy(), "and stop once it goes dark");
}

#[test]
fn opening_a_search_starts_no_ticks() {
    let mut app = app(&[]);
    press(&mut app, Key::Char('/'));
    assert!(!app.busy(), "redraws would restart the cursor's blink");
    press(&mut app, Key::Esc);
    press(&mut app, Key::Char('h'));
    press(&mut app, Key::Char('/'));
    assert!(!app.busy(), "nor in the sidebar");
    press(&mut app, Key::Esc);
    for open in ['t', '?'] {
        press(&mut app, Key::Char(open));
        press(&mut app, Key::Char('/'));
        assert!(!app.busy(), "nor in the {open} overlay, lit by the key that opened it");
        press(&mut app, Key::Esc);
        press(&mut app, Key::Esc);
    }
}

#[test]
fn install_flow_spawns_then_rescans_and_runs_the_queue() {
    let mut app = app(&["brew", "cargo"]);
    press(&mut app, Key::Enter);
    let Mode::Picker(picker) = &app.mode else { panic!("no confirm") };
    assert_eq!(picker.items, ["brew install lazygit"]);
    let effects = press(&mut app, Key::Enter);
    let [Effect::Spawn(job)] = &effects[..] else { panic!("{effects:?}") };
    assert_eq!(job.argv, ["brew", "install", "lazygit"]);
    assert!(app.busy());

    // A second install while the first runs is queued, not spawned.
    press(&mut app, Key::Char('j'));
    press(&mut app, Key::Enter);
    assert!(press(&mut app, Key::Char('y')).is_empty());
    assert_eq!(app.queue.len(), 1);

    let brew = by_name("brew").unwrap();
    let effects = app.update(Event::JobDone { ok: true });
    assert_eq!(effects[0], Effect::Scan(Some(brew)));
    assert!(matches!(&effects[1], Effect::Spawn(job) if job.argv == ["brew", "install", "btop"]));

    let effects = app.update(Event::Listing(brew, vec!["lazygit".into()]));
    assert_eq!(effects, [Effect::SaveInstalled]);
    assert!(app.installed.is_installed(2));

    // Enter on an installed row offers to uninstall it.
    press(&mut app, Key::Char('k'));
    press(&mut app, Key::Enter);
    let Mode::Picker(picker) = &app.mode else { panic!("no confirm") };
    assert_eq!(picker.items, ["brew uninstall lazygit"]);
}

#[test]
fn a_job_whose_manager_vanished_does_not_wait_on_a_scan() {
    let mut app = app(&["brew"]);
    press(&mut app, Key::Enter);
    press(&mut app, Key::Enter);
    assert!(app.running.is_some());
    // Startup detection lands meanwhile and brew is no longer on PATH.
    let effects = app.update(Event::Detected(Vec::new()));
    assert_eq!((effects, app.scans_pending), (vec![Effect::SaveInstalled], 0));
    let effects = app.update(Event::JobDone { ok: true });
    assert_eq!(effects, [Effect::SaveInstalled], "nothing to scan, so the cache is saved right away");
    assert_eq!((app.scans_pending, app.running.is_none()), (0, true));
}

#[test]
fn upgrade_offers_the_installing_manager_only() {
    let mut app = app(&["brew", "go"]);
    assert!(press(&mut app, Key::Char('u')).is_empty());
    assert!(app.status.contains("not installed"), "{}", app.status);

    app.update(Event::Listing(by_name("go").unwrap(), vec!["lazygit".into()]));
    press(&mut app, Key::Char('u'));
    let Mode::Picker(picker) = &app.mode else { panic!("no confirm") };
    assert_eq!(picker.title, "Upgrade lazygit?");
    assert_eq!(picker.items, ["go install github.com/jesseduffield/lazygit@latest"]);
    let effects = press(&mut app, Key::Enter);
    assert!(matches!(&effects[..], [Effect::Spawn(job)] if job.action == Action::Upgrade));
}

#[test]
fn privileged_managers_take_over_the_terminal() {
    let mut app = app(&["apt"]);
    press(&mut app, Key::Char('j'));
    assert_eq!(selected_name(&app), "btop");
    press(&mut app, Key::Enter);
    let effects = press(&mut app, Key::Enter);
    assert!(
        matches!(&effects[..], [Effect::RunInTerminal(job)] if job.argv[..2] == ["sudo", "apt-get"] || job.argv[0] == "apt-get")
    );
}

#[test]
fn impossible_actions_explain_themselves() {
    let mut app = app(&["brew"]);
    press(&mut app, Key::Char('G'));
    press(&mut app, Key::Enter);
    assert!(app.status.starts_with("✗ ") && app.status.contains("packaged for nix"), "{}", app.status);
    assert_eq!(app.mode, Mode::Normal);
}

#[test]
fn log_stays_bounded_across_jobs() {
    let mut app = app(&["brew"]);
    for _ in 0..3 {
        press(&mut app, Key::Enter);
        press(&mut app, Key::Enter);
        for _ in 0..LOG_LINES {
            app.update(Event::JobOutput("x".into()));
        }
        app.update(Event::JobDone { ok: true });
    }
    assert_eq!(app.log.len(), LOG_LINES);
}

#[test]
fn quitting_needs_two_presses() {
    let mut app = app(&[]);
    assert!(press(&mut app, Key::Char('q')).is_empty());
    assert!(app.status.contains("q again"), "{}", app.status);
    assert!(press(&mut app, Key::Char('j')).is_empty(), "any other key disarms");
    assert!(press(&mut app, Key::Char('q')).is_empty());
    assert_eq!(press(&mut app, Key::Char('q')), [Effect::Quit]);
}

#[test]
fn quitting_with_a_running_job_says_so() {
    let mut app = app(&["brew"]);
    press(&mut app, Key::Enter);
    press(&mut app, Key::Enter);
    assert!(press(&mut app, Key::Char('q')).is_empty());
    assert!(app.status.contains("still running"), "{}", app.status);
    assert_eq!(press(&mut app, Key::Char('q')), [Effect::Quit]);
}

#[test]
fn fresh_index_resets_catalog_scoped_filters() {
    let mut app = app(&[]);
    press(&mut app, Key::Char('l'));
    app.update(Event::Index(IndexUpdate::Fresh(Box::new(catalog()))));
    assert_eq!(app.query.category, None);
    assert!(app.status.contains("6 TUIs"));
}

#[test]
fn fresh_index_closes_dialogs_holding_old_rows() {
    let smaller = || {
        let mut b = Builder::new(0);
        b.push(&Entry { name: "x", url: "https://x.y", ..Default::default() }).unwrap();
        Box::new(b.finish())
    };
    let mut app = app(&["brew"]);
    let row = app.selected_row().unwrap();
    press(&mut app, Key::Enter);
    assert!(matches!(app.mode, Mode::Picker(_)));
    app.update(Event::Index(IndexUpdate::Fresh(smaller())));
    assert_eq!(app.mode, Mode::Normal, "row {row} is gone from the new catalog");
    assert!(press(&mut app, Key::Enter).is_empty());

    press(&mut app, Key::Char('L'));
    app.update(Event::Index(IndexUpdate::Fresh(smaller())));
    assert_eq!(app.mode, Mode::Normal);

    press(&mut app, Key::Char('t'));
    app.update(Event::Index(IndexUpdate::Fresh(smaller())));
    assert!(matches!(app.mode, Mode::Picker(_)), "themes do not depend on the catalog");
}

#[test]
fn ctrl_c_quits_from_anywhere() {
    let mut app = app(&[]);
    press(&mut app, Key::Char('/'));
    assert_eq!(ctrl(&mut app, 'c'), [Effect::Quit]);
}

#[test]
fn index_news_is_reported_unless_the_refresh_was_quiet() {
    let mut app = app(&[]);
    assert_eq!(press(&mut app, Key::Char('r')), [Effect::RefreshIndex]);
    assert_eq!(app.status, "Refreshing index\u{2026}");
    assert!(press(&mut app, Key::Char('r')).is_empty() || app.refreshing);
    app.update(Event::Index(IndexUpdate::NotModified));
    assert_eq!(app.status, "Index is up to date");
    app.begin_quiet_refresh();
    app.status.clear();
    app.update(Event::Index(IndexUpdate::Failed("offline".into())));
    assert_eq!(app.status, "", "a quiet refresh only speaks up about news");
    app.update(Event::Index(IndexUpdate::Failed("offline".into())));
    assert_eq!(app.status, "Index refresh failed: offline");
}

#[test]
fn the_log_view_copies_and_closes() {
    let mut app = app(&[]);
    press(&mut app, Key::Char('v'));
    assert_eq!(app.mode, Mode::Log);
    assert_eq!(press(&mut app, Key::Char('y')), [Effect::Copy(String::new())]);
    press(&mut app, Key::Char('x'));
    assert_eq!(app.mode, Mode::Normal);
}

#[test]
fn the_status_bar_names_what_is_going_on() {
    let mut app = app(&[]);
    app.detecting = false;
    app.scans_pending = 0;
    app.refreshing = false;
    assert_eq!(app.activity(), None);
    app.scans_pending = 2;
    assert_eq!(app.activity().as_deref(), Some("scanning installed"));
    app.refreshing = true;
    assert_eq!(app.activity().as_deref(), Some("refreshing index"));
    let job = |title: &str| Job { action: Action::Install, manager: 0, row: 0, title: title.into(), argv: vec![] };
    app.running = Some(job("btop"));
    assert_eq!(app.activity().as_deref(), Some("btop"));
    app.queue.push_back(job("k9s"));
    app.queue.push_back(job("yazi"));
    assert_eq!(app.activity().as_deref(), Some("btop (+2 queued)"));
}

#[test]
fn hints_that_do_not_fit_are_dropped_whole_from_the_end() {
    let shown = hints();
    assert_eq!(shown.len(), 13);
    assert_eq!(shown[0], ("enter", "install/uninstall", true));
    assert_eq!(shown[3], ("/", "search", true));
    assert_eq!(hints_that_fit(&shown, 0, 3), 0);
    assert_eq!(hints_that_fit(&shown, 22, 3), 0);
    assert_eq!(hints_that_fit(&shown, 23, 3), 1);
    assert_eq!(hints_that_fit(&shown, 34, 3), 2);
    assert_eq!(hints_that_fit(&shown, 42, 3), 3);
    assert_eq!(hints_that_fit(&shown, 52, 3), 3);
    assert_eq!(hints_that_fit(&shown, 53, 3), 4);
    assert_eq!(hints_that_fit(&shown, 1000, 3), 13);
}

#[test]
fn a_job_on_a_row_outranks_its_installed_mark() {
    let mut app = app(&[]);
    assert!(app.catalog.len() >= 3);
    assert_eq!(app.row_mark(0), RowMark::Plain);
    let job = |row: u32| Job { action: Action::Install, manager: 0, row, title: "t".into(), argv: vec![] };
    app.running = Some(job(0));
    app.queue.push_back(job(1));
    assert_eq!(app.row_mark(0), RowMark::Running);
    assert_eq!(app.row_mark(1), RowMark::Queued);
    assert_eq!(app.row_mark(2), RowMark::Plain);
}

#[test]
fn an_empty_list_says_why() {
    let mut app = app(&[]);
    assert_eq!(app.empty_message(), "Nothing matches (press c to clear filters)");
    let empty = Builder::new(0).finish();
    let installed = Installed::new(vec![], &empty);
    let mut fresh = App::new(empty, installed, 0);
    fresh.refreshing = false;
    assert_eq!(fresh.empty_message(), "No index yet (press r to download it)");
    fresh.refreshing = true;
    assert_eq!(fresh.empty_message(), "Downloading the index…");
    app.refreshing = true;
    assert_eq!(app.empty_message(), "Nothing matches (press c to clear filters)");
}
