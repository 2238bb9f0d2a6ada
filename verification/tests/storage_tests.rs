use lib::manager::NoteManager;
use lib::note::NoteColor;
use lib::storage::{load_notes_from_text, storage_text};

fn sample() -> NoteManager {
    let mut nm = NoteManager::new();
    nm.create_note_at("Groceries".to_string(), 1700000000);
    nm.create_note_at("Plans".to_string(), 1700000100);
    {
        let n = nm.get_note_by_id(1).unwrap();
        n.add_version_at("milk".to_string(), 1700000010, 1700000020);
        n.add_version_at("milk and bread".to_string(), 1700000030, 1700000040);
        n.pinned = true;
        n.color = NoteColor::Blue;
        n.password = Some("pw".to_string());
        n.reminder = Some(1800000000);
    }
    nm.add_tag_to_note(1, "home");
    nm.link_notes(1, 2);
    nm
}

#[test]
fn saved_text_format() {
    let nm = sample();
    assert_eq!(
        storage_text(&nm),
        "Note ID: 1, Title: Groceries, Pinned: true, Tags: general|home, Color: blue, CreatedAt: 1700000000, UpdatedAt: 1700000040, Password: pw, Reminder: 1800000000, Links: 2\n\
         Version 1, CreatedAt: 1700000010: milk\n\
         Version 2, CreatedAt: 1700000030: milk and bread\n\
         Note ID: 2, Title: Plans, Pinned: false, Tags: general, Color: default, CreatedAt: 1700000100, UpdatedAt: 1700000100, Password: , Reminder: , Links: \n"
    );
    assert_eq!(storage_text(&NoteManager::new()), "");
}

#[test]
fn save_then_load_gives_the_notes_back() {
    let nm = sample();
    let loaded = load_notes_from_text(&storage_text(&nm)).unwrap();
    assert_eq!(loaded.notes.len(), 2);
    assert_eq!(storage_text(&loaded), storage_text(&nm));
    let n = &loaded.notes[0];
    assert_eq!((n.id, n.title.as_str(), n.pinned, n.color), (1, "Groceries", true, NoteColor::Blue));
    assert_eq!(n.tags, vec!["general".to_string(), "home".to_string()]);
    assert_eq!(n.password.as_deref(), Some("pw"));
    assert_eq!(n.reminder, Some(1800000000));
    assert_eq!(n.links, vec![2]);
    assert_eq!(n.versions[1].content, "milk and bread");
    assert_eq!(n.versions[1].created_at, 1700000030);
    assert_eq!(loaded.next_id, 3);
    assert!(loaded.trash.is_empty());
    assert!(loaded.autosave);
}

#[test]
fn legacy_lines_are_read() {
    let text = "Note ID: 7, Title: Old\nVersion 1: first text\nVersion 2: second: with colon\n";
    let nm = load_notes_from_text(text).unwrap();
    let n = &nm.notes[0];
    assert_eq!((n.id, n.title.as_str()), (7, "Old"));
    assert_eq!(n.tags, vec!["general".to_string()]);
    assert_eq!(n.color, NoteColor::Default);
    assert_eq!((n.created_at, n.updated_at), (0, 0));
    assert_eq!(n.versions.len(), 2);
    assert_eq!(n.versions[0].content, "first text");
    assert_eq!(n.versions[1].content, "second: with colon");
    assert_eq!(n.versions[1].version_number, 2);
    assert_eq!(nm.next_id, 8);
}

#[test]
fn odd_lines() {
    let text = "garbage line\nVersion 1: orphan\nNote ID: x, Title: T, Tags: , Links: 3|x|4\nVersion 9, CreatedAt: 55:  padded  \r\n";
    let nm = load_notes_from_text(text).unwrap();
    assert_eq!(nm.notes.len(), 1);
    let n = &nm.notes[0];
    assert_eq!(n.id, 0);
    // the fourth part here is the links field, so the tags take their default
    assert_eq!(n.tags, vec!["general".to_string()]);
    // "Links:" is not the tenth part here, so it is not read
    assert!(n.links.is_empty());
    assert_eq!(n.versions[0].version_number, 1);
    assert_eq!(n.versions[0].content, "padded");
    assert_eq!(n.versions[0].created_at, 55);
    assert_eq!(n.updated_at, 55);
    assert_eq!(nm.next_id, 2);
}

#[test]
fn empty_tags_field_gives_one_empty_tag() {
    let text = "Note ID: 1, Title: T, Pinned: true, Tags: \n";
    let nm = load_notes_from_text(text).unwrap();
    assert_eq!(nm.notes[0].tags, vec!["".to_string()]);
    assert!(nm.notes[0].pinned);
}

#[test]
fn links_field_reads_numbers() {
    let text = "Note ID: 1, Title: T, Pinned: false, Tags: a, Color: red, CreatedAt: 1, UpdatedAt: 2, Password: , Reminder: , Links: 3|x|4\n";
    let nm = load_notes_from_text(text).unwrap();
    assert_eq!(nm.notes[0].links, vec![3, 4]);
    assert_eq!(nm.notes[0].color, NoteColor::Red);
    assert_eq!(nm.notes[0].password, None);
}

#[test]
fn largest_id_overflows() {
    assert!(load_notes_from_text("Note ID: 4294967295, Title: big\n").is_none());
    assert!(load_notes_from_text("Note ID: 4294967294, Title: big\n").is_some());
    assert_eq!(load_notes_from_text("").unwrap().notes.len(), 0);
}

#[test]
fn fields_outside_the_format_do_not_survive() {
    let mut nm = NoteManager::new();
    nm.create_note_at("a, b".to_string(), 5);
    nm.get_note_by_id(1).unwrap().add_version_at("  padded  ".to_string(), 5, 5);
    let back = load_notes_from_text(&storage_text(&nm)).unwrap();
    assert_eq!(back.notes[0].title, "a");
    assert_eq!(back.notes[0].versions[0].content, "padded");
}
