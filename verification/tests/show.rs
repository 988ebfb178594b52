use tuiman::output::printable;
use tuiman::show::{age, date, hint_is_for};

#[test]
fn ages() {
    let at = |pushed| age(pushed, 20_000);
    assert_eq!(at(None), "-");
    assert_eq!(at(Some(20_000)), "today");
    assert_eq!(at(Some(20_001)), "today", "clock skew never goes negative");
    assert_eq!(at(Some(19_995)), "5d");
    assert_eq!(at(Some(19_900)), "3mo");
    assert_eq!(at(Some(19_000)), "2y");
}

#[test]
fn dates() {
    assert_eq!(date(20_717), "2026-09-21");
}

#[test]
fn early_dates_are_padded() {
    assert_eq!(date(0), "1970-01-01");
    assert_eq!(date(59), "1970-03-01");
}

#[test]
fn hints_match_the_pressed_key() {
    assert!(hint_is_for("s", "s"));
    assert!(hint_is_for("s", "3s"));
    assert!(!hint_is_for("L", "l"), "case matters for letters");
    assert!(hint_is_for("enter", "Enter"));
    assert!(!hint_is_for("s", "^s"));
    assert!(!hint_is_for("s", ""));
}

#[test]
fn strips_escapes() {
    assert_eq!(printable("\x1b[1;32m==>\x1b[0m Pouring btop"), "==> Pouring btop");
    assert_eq!(printable("\x1b]0;title\x07text\x1b]8;;x\x1b\\!"), "text!");
    assert_eq!(printable("a\tb\x08\x00c"), "a    bc");
    assert_eq!(printable("dangling \x1b"), "dangling ");
    assert_eq!(printable("\u{2714}\u{fe0e} Bottle \u{1f37a}  done"), " Bottle   done");
}

#[test]
fn unknown_escapes_drop_one_character() {
    assert_eq!(printable("a\x1bXb"), "ab");
    assert_eq!(printable("\x1b[1;2"), "");
    assert_eq!(printable("\x1b[unterminated"), "nterminated");
}
