use lib::note::{format_timestamp, is_leap, month_days, now_timestamp, Note, NoteColor, Version};

fn note_with(contents: &[&str]) -> Note {
    let mut n = Note::new_at(1, "Title".to_string(), 100);
    for (i, c) in contents.iter().enumerate() {
        n.add_version_at(c.to_string(), 200 + i as u64, 300 + i as u64);
    }
    n
}

#[test]
fn timestamps_in_ist() {
    assert_eq!(format_timestamp(0), "unknown");
    assert_eq!(format_timestamp(1), "01 Jan 1970  05:30:01 IST");
    assert_eq!(format_timestamp(1700000000), "15 Nov 2023  03:43:20 IST");
    assert_eq!(format_timestamp(951762600), "29 Feb 2000  00:00:00 IST");
    assert_eq!(format_timestamp(1709164800), "29 Feb 2024  05:30:00 IST");
    assert_eq!(format_timestamp(4102444800), "01 Jan 2100  05:30:00 IST");
}

#[test]
fn leap_years_and_months() {
    assert!(is_leap(2000));
    assert!(is_leap(2024));
    assert!(!is_leap(1900));
    assert!(!is_leap(2023));
    assert_eq!(month_days(2024)[1], 29);
    assert_eq!(month_days(2023)[1], 28);
    assert_eq!(month_days(2023).iter().sum::<u64>(), 365);
}

#[test]
fn clock_reads_after_2020() {
    assert!(now_timestamp() > 1_577_836_800);
    let n = Note::new(3, "now".to_string());
    assert_eq!(n.created_at, n.updated_at);
    assert!(n.created_at > 1_577_836_800);
}

#[test]
fn colors() {
    assert_eq!(NoteColor::Red.to_ansi(), "\x1b[1;31m");
    assert_eq!(NoteColor::Default.to_ansi(), "\x1b[0m");
    assert_eq!(NoteColor::Cyan.as_str(), "cyan");
    assert_eq!(NoteColor::from_str("  ReD "), NoteColor::Red);
    assert_eq!(NoteColor::from_str("MAGENTA"), NoteColor::Magenta);
    assert_eq!(NoteColor::from_str("purple"), NoteColor::Default);
    assert_eq!(NoteColor::from_menu(" 3 "), NoteColor::Blue);
    assert_eq!(NoteColor::from_menu("0"), NoteColor::Default);
    assert_eq!(NoteColor::from_menu("7"), NoteColor::Default);
    assert_eq!(NoteColor::menu_str(), "  1) red  2) green  3) blue  4) yellow  5) magenta  6) cyan  0) default");
}

#[test]
fn new_note_defaults() {
    let n = Note::new_at(5, "Hello".to_string(), 1234);
    assert_eq!(n.id, 5);
    assert_eq!(n.title, "Hello");
    assert!(n.versions.is_empty());
    assert!(!n.pinned);
    assert_eq!(n.tags, vec!["general".to_string()]);
    assert_eq!(n.color, NoteColor::Default);
    assert_eq!((n.created_at, n.updated_at), (1234, 1234));
    assert!(n.password.is_none() && n.reminder.is_none() && n.links.is_empty());
}

#[test]
fn versions_are_numbered_in_order() {
    let n = note_with(&["a", "b", "c"]);
    let numbers: Vec<u32> = n.versions.iter().map(|v| v.version_number).collect();
    assert_eq!(numbers, vec![1, 2, 3]);
    assert_eq!(n.versions[2].created_at, 202);
    assert_eq!(n.updated_at, 302);
    assert_eq!(n.get_latest_version().unwrap().content, "c");
    let mut m = Note::new_at(1, "t".to_string(), 0);
    m.add_version("now".to_string());
    assert_eq!(m.versions[0].version_number, 1);
}

#[test]
fn edit_version_rewrites_content() {
    let mut n = note_with(&["first", "second"]);
    assert!(n.edit_version_at(1, "changed".to_string(), 900, 901));
    assert_eq!(n.versions[0].content, "changed");
    assert_eq!(n.versions[0].version_number, 1);
    assert_eq!(n.versions[0].created_at, 900);
    assert_eq!(n.updated_at, 901);
    assert!(!n.edit_version_at(9, "nothing".to_string(), 1, 1));
    assert_eq!(n.updated_at, 901);
    assert!(n.edit_version(2, "again".to_string()));
    assert_eq!(n.versions[1].content, "again");
}

#[test]
fn counts() {
    let n = note_with(&["one two three", "  four\tfive ", "ünïcode wörds"]);
    assert_eq!(n.versions[0].word_count(), 3);
    assert_eq!(n.versions[1].word_count(), 2);
    assert_eq!(n.versions[2].char_count(), 13);
    assert_eq!(n.total_words(), 7);
    assert_eq!(n.total_words_checked(), Some(7));
    assert_eq!(n.latest_word_count(), 2);
    assert_eq!(n.latest_char_count(), 13);
    let empty = note_with(&[]);
    assert_eq!(empty.latest_word_count(), 0);
    assert_eq!(empty.latest_char_count(), 0);
    assert!(empty.get_latest_version().is_none());
}

#[test]
fn display_line_format() {
    let v = Version::new_with_ts(2, "hi there".to_string(), 1);
    assert_eq!(
        v.display_line(true),
        "\x1b[1;36m  v2\x1b[0m \x1b[2m│ 2 words │ 8 chars │ 01 Jan 1970  05:30:01 IST \x1b[1;32m[current]\x1b[0m\x1b[0m\n      \x1b[0;37mhi there\x1b[0m"
    );
    assert_eq!(
        v.display_line(false),
        "\x1b[1;36m  v2\x1b[0m \x1b[2m│ 2 words │ 8 chars │ 01 Jan 1970  05:30:01 IST\x1b[0m\n      \x1b[0;37mhi there\x1b[0m"
    );
    let w = Version::new(4, "x".to_string());
    assert_eq!((w.version_number, w.content.as_str()), (4, "x"));
}

#[test]
fn diff_marks_changes() {
    let n = note_with(&["same\nold\nextra", "same\nnew"]);
    let d = n.diff(1, 2).unwrap();
    assert_eq!(
        d,
        "\x1b[1;33m  Diff v1 → v2\x1b[0m\n  \x1b[2m  same\x1b[0m\n  \x1b[1;31m- old\x1b[0m\n  \x1b[1;32m+ new\x1b[0m\n  \x1b[1;31m- extra\x1b[0m\n"
    );
    let added = n.diff(2, 1).unwrap();
    assert!(added.ends_with("  \x1b[1;32m+ extra\x1b[0m\n"));
    assert!(n.diff(1, 3).is_none());
    assert!(n.diff(7, 1).is_none());
}

#[test]
fn diff_with_itself_changes_nothing() {
    let n = note_with(&["a\nb\nc"]);
    let d = n.diff(1, 1).unwrap();
    assert!(!d.contains("- ") && !d.contains("+ "));
    assert_eq!(d.matches("\x1b[2m  ").count(), 3);
}

#[test]
fn reminders_due() {
    let mut n = note_with(&[]);
    assert!(!n.is_reminder_due_at(u64::MAX));
    assert!(!n.is_reminder_due());
    n.reminder = Some(500);
    assert!(!n.is_reminder_due_at(499));
    assert!(n.is_reminder_due_at(500));
    assert!(n.is_reminder_due());
}

#[test]
fn colour_names_read_back() {
    let all = [
        NoteColor::Default,
        NoteColor::Red,
        NoteColor::Green,
        NoteColor::Blue,
        NoteColor::Yellow,
        NoteColor::Magenta,
        NoteColor::Cyan,
    ];
    for c in all {
        assert_eq!(NoteColor::from_str(c.as_str()), c);
        assert_eq!(NoteColor::from_str(&format!(" {} ", c.as_str().to_uppercase())), c);
        assert_eq!(NoteColor::from_str(&format!("\t{}\n", c.as_str())), c);
    }
}
