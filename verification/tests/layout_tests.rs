use lib::layout::{box_row, box_separator, note_card, version_lines};
use lib::note::Note;

#[test]
fn boxes() {
    assert_eq!(box_row(5, "ab", "C"), "C  │ ab    │\x1b[0m");
    assert_eq!(box_row(1, "long", ""), "  │ long │\x1b[0m");
    assert_eq!(box_row(3, "äö", ""), format!("  │ {:<3} │\x1b[0m", "äö"));
    assert_eq!(box_separator(2), "  ├────┤");
    assert_eq!(box_separator(0), "  ├──┤");
}

#[test]
fn cards() {
    let mut n = Note::new_at(3, "Title".to_string(), 1);
    assert_eq!(
        note_card(&n, false),
        "\x1b[0m  ┌─   Note #3 ─ Title\n\x1b[0m  │   (no versions yet)\x1b[0m\n\x1b[0m  │   #general  |  color: default  |  links: []\n\x1b[0m  └───────────────────────────\x1b[0m\n\n"
    );
    n.add_version_at("old".to_string(), 1, 1);
    n.add_version_at("new words".to_string(), 1, 1);
    n.pinned = true;
    n.links = vec![1, 2];
    let card = note_card(&n, true);
    assert!(card.starts_with("\x1b[0m  ┌─ \x1b[38;5;214mPINNED\x1b[0m Note #3 ─ Title 🔔\n"));
    let newer = card.find("v2: new words  \x1b[2m[2 words]\x1b[0m \x1b[1;32m[current]\x1b[0m").unwrap();
    let older = card.find("v1: old  \x1b[2m[1 words]\x1b[0m\x1b[0m\n").unwrap();
    assert!(newer < older);
    assert!(card.contains("links: [1, 2]\n"));
}

#[test]
fn version_lines_latest_first() {
    let mut n = Note::new_at(1, "t".to_string(), 1);
    n.add_version_at("a".to_string(), 1, 1);
    n.add_version_at("b".to_string(), 1, 1);
    let lines = version_lines(&n);
    assert_eq!(lines.len(), 2);
    assert_eq!(lines[0], n.versions[1].display_line(true));
    assert_eq!(lines[1], n.versions[0].display_line(false));
}

