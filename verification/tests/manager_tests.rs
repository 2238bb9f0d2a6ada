use lib::manager::{template_for, EditOutcome, NoteManager};
use lib::note::NoteColor;

fn manager_with(titles: &[&str]) -> NoteManager {
    let mut nm = NoteManager::new();
    for (i, t) in titles.iter().enumerate() {
        nm.create_note_at(t.to_string(), 1000 + i as u64);
    }
    nm
}

fn ids(nm: &NoteManager) -> Vec<u32> {
    nm.notes.iter().map(|n| n.id).collect()
}

fn trash_ids(nm: &NoteManager) -> Vec<u32> {
    nm.trash.iter().map(|n| n.id).collect()
}

fn lines(v: &[&str]) -> Vec<String> {
    v.iter().map(|s| s.to_string()).collect()
}

#[test]
fn new_manager_is_empty() {
    let nm = NoteManager::new();
    assert!(nm.notes.is_empty() && nm.trash.is_empty());
    assert_eq!(nm.next_id, 1);
    assert!(nm.autosave);
}

#[test]
fn create_assigns_increasing_ids() {
    let mut nm = manager_with(&["a", "b"]);
    nm.create_note("c".to_string());
    assert_eq!(ids(&nm), vec![1, 2, 3]);
    assert_eq!(nm.next_id, 4);
    assert_eq!(nm.notes[1].created_at, 1001);
    nm.create_note_from_template_at("t".to_string(), "## To-Do", 5, 6, 7);
    let t = &nm.notes[3];
    assert_eq!((t.id, t.versions.len(), t.versions[0].content.as_str()), (4, 1, "## To-Do"));
    assert_eq!((t.created_at, t.versions[0].created_at, t.updated_at), (5, 6, 7));
    nm.create_note_from_template("u".to_string(), "body");
    assert_eq!(nm.notes[4].versions[0].version_number, 1);
}

#[test]
fn lookups_by_id() {
    let mut nm = manager_with(&["a", "b"]);
    assert_eq!(nm.get_note_by_id_ref(2).unwrap().title, "b");
    assert!(nm.get_note_by_id_ref(9).is_none());
    nm.get_note_by_id(1).unwrap().pinned = true;
    assert!(nm.notes[0].pinned);
    assert!(nm.get_note_by_id(9).is_none());
}

#[test]
fn delete_then_undo_restores() {
    let mut nm = manager_with(&["a", "b", "c"]);
    assert!(nm.delete_note_by_id(2));
    assert_eq!(ids(&nm), vec![1, 3]);
    assert_eq!(trash_ids(&nm), vec![2]);
    assert!(!nm.delete_note_by_id(2));
    assert_eq!(nm.undo_delete(), Some(2));
    assert_eq!(ids(&nm), vec![1, 2, 3]);
    assert!(nm.trash.is_empty());
    assert_eq!(nm.notes[1].title, "b");
    assert_eq!(nm.undo_delete(), None);
}

#[test]
fn undo_restores_most_recent_first() {
    let mut nm = manager_with(&["a", "b", "c"]);
    nm.delete_note_by_id(1);
    nm.delete_note_by_id(3);
    assert_eq!(nm.undo_delete(), Some(3));
    assert_eq!(ids(&nm), vec![2, 3]);
    assert_eq!(nm.undo_delete(), Some(1));
    assert_eq!(ids(&nm), vec![1, 2, 3]);
}

#[test]
fn trash_operations() {
    let mut nm = manager_with(&["a", "b", "c", "d"]);
    nm.delete_note_by_id(4);
    nm.delete_note_by_id(1);
    nm.delete_note_by_id(3);
    assert!(nm.restore_from_trash(1));
    assert_eq!(ids(&nm), vec![1, 2]);
    assert_eq!(trash_ids(&nm), vec![4, 3]);
    assert!(!nm.restore_from_trash(9));
    assert!(nm.delete_from_trash(4));
    assert!(!nm.delete_from_trash(4));
    assert_eq!(trash_ids(&nm), vec![3]);
    nm.delete_note_by_id(2);
    nm.restore_all_from_trash();
    assert_eq!(ids(&nm), vec![1, 2, 3]);
    assert!(nm.trash.is_empty());
    nm.delete_note_by_id(1);
    nm.empty_trash();
    assert!(nm.trash.is_empty());
    assert_eq!(ids(&nm), vec![2, 3]);
}

#[test]
fn colors_and_pins() {
    let mut nm = manager_with(&["a"]);
    assert!(nm.set_color(1, NoteColor::Green));
    assert_eq!(nm.notes[0].color, NoteColor::Green);
    assert!(!nm.set_color(5, NoteColor::Red));
}

#[test]
fn tags() {
    let mut nm = manager_with(&["a", "b"]);
    assert!(nm.add_tag_to_note(1, "work"));
    assert!(nm.add_tag_to_note(1, "work"));
    assert_eq!(nm.notes[0].tags, vec!["general".to_string(), "work".to_string()]);
    assert!(!nm.add_tag_to_note(7, "x"));
    nm.bulk_add_tag("todo");
    assert!(nm.notes.iter().all(|n| n.tags.contains(&"todo".to_string())));
    nm.bulk_add_tag("todo");
    assert_eq!(nm.notes[1].tags, vec!["general".to_string(), "todo".to_string()]);
    assert!(nm.remove_tag_from_note(1, "work"));
    assert_eq!(nm.notes[0].tags, vec!["general".to_string(), "todo".to_string()]);
    nm.bulk_remove_tag("general");
    assert!(nm.notes.iter().all(|n| !n.tags.contains(&"general".to_string())));
    assert!(!nm.remove_tag_from_note(7, "todo"));
}

#[test]
fn passwords() {
    let mut nm = manager_with(&["a"]);
    assert!(nm.check_password(1, "anything"));
    assert!(nm.set_password(1, "s3cret".to_string()));
    assert!(nm.check_password(1, "s3cret"));
    assert!(!nm.check_password(1, "wrong"));
    assert!(!nm.check_password(2, "s3cret"));
    assert!(nm.remove_password(1));
    assert!(nm.check_password(1, "wrong"));
    assert!(!nm.set_password(2, "x".to_string()));
}

#[test]
fn reminders() {
    let mut nm = manager_with(&["a", "b", "c"]);
    assert!(nm.set_reminder(1, 100));
    assert!(nm.set_reminder(3, 500));
    assert!(!nm.set_reminder(9, 1));
    let due: Vec<u32> = nm.due_reminders_at(200).iter().map(|n| n.id).collect();
    assert_eq!(due, vec![1]);
    assert_eq!(nm.due_reminders().len(), 2);
    nm.clear_due_reminders_at(200);
    assert_eq!(nm.notes[0].reminder, None);
    assert_eq!(nm.notes[2].reminder, Some(500));
    assert!(nm.due_reminders_at(200).is_empty());
    nm.clear_due_reminders();
    assert_eq!(nm.notes[2].reminder, None);
}

#[test]
fn links_go_one_way() {
    let mut nm = manager_with(&["a", "b"]);
    assert!(nm.link_notes(1, 2));
    assert!(nm.link_notes(1, 2));
    assert_eq!(nm.notes[0].links, vec![2]);
    assert!(nm.notes[1].links.is_empty());
    assert!(!nm.link_notes(1, 9));
    assert!(!nm.link_notes(9, 1));
    assert!(nm.unlink_notes(1, 2));
    assert!(nm.notes[0].links.is_empty());
    assert!(!nm.unlink_notes(9, 2));
}

#[test]
fn deleting_versions_renumbers() {
    let mut nm = manager_with(&["a"]);
    for c in ["v1", "v2", "v3"] {
        nm.get_note_by_id(1).unwrap().add_version_at(c.to_string(), 10, 20);
    }
    assert!(nm.delete_version_at(1, 2, 99));
    let n = &nm.notes[0];
    let got: Vec<(u32, &str)> = n.versions.iter().map(|v| (v.version_number, v.content.as_str())).collect();
    assert_eq!(got, vec![(1, "v1"), (2, "v3")]);
    assert_eq!(n.updated_at, 99);
    assert!(!nm.delete_version_at(1, 5, 100));
    assert_eq!(nm.notes[0].updated_at, 99);
    assert!(!nm.delete_version_at(2, 1, 100));
    assert!(nm.delete_version(1, 1));
    assert!(!nm.delete_version(1, 1));
    assert_eq!(nm.notes[0].versions.len(), 1);
    assert_eq!(nm.notes[0].versions[0].content, "v3");
}

#[test]
fn editing_a_note() {
    let mut nm = manager_with(&["a"]);
    match nm.edit_note_by_id_at(1, &lines(&["first line", "second words here"]), 7, 8) {
        EditOutcome::Saved { version_number, line_count, word_count } => {
            assert_eq!((version_number, line_count, word_count), (1, 2, 5));
        }
        _ => panic!("expected a saved version"),
    }
    assert_eq!(nm.notes[0].versions[0].content, "first line\nsecond words here");
    assert_eq!(nm.notes[0].updated_at, 8);
    assert!(matches!(nm.edit_note_by_id_at(1, &Vec::new(), 1, 1), EditOutcome::Empty));
    assert!(matches!(nm.edit_note_by_id_at(1, &lines(&[""]), 1, 1), EditOutcome::Empty));
    assert!(matches!(nm.edit_note_by_id_at(4, &lines(&["x"]), 1, 1), EditOutcome::NotFound));
    assert_eq!(nm.notes[0].versions.len(), 1);
    assert!(matches!(nm.edit_note_by_id(1, &lines(&["more"])), EditOutcome::Saved { version_number: 2, .. }));
}

#[test]
fn editing_a_version() {
    let mut nm = manager_with(&["a"]);
    nm.edit_note_by_id_at(1, &lines(&["base"]), 1, 1);
    assert_eq!(nm.find_version_content(1, 1).unwrap(), "base");
    assert!(nm.find_version_content(1, 2).is_none());
    assert!(nm.edit_version_of_note_at(1, 1, "1", &lines(&["added", "more"]), 50, 51));
    assert_eq!(nm.notes[0].versions[0].content, "base\nadded\nmore");
    assert!(nm.edit_version_of_note_at(1, 1, "2", &lines(&["replaced"]), 52, 53));
    assert_eq!(nm.notes[0].versions[0].content, "replaced");
    assert_eq!((nm.notes[0].versions[0].created_at, nm.notes[0].updated_at), (52, 53));
    assert!(!nm.edit_version_of_note_at(1, 1, "1", &Vec::new(), 1, 1));
    assert!(!nm.edit_version_of_note_at(1, 3, "1", &lines(&["x"]), 1, 1));
    assert!(!nm.edit_version_of_note_at(3, 1, "1", &lines(&["x"]), 1, 1));
    assert!(nm.edit_version_of_note(1, 1, "x", &lines(&["last"])));
    assert_eq!(nm.notes[0].versions[0].content, "last");
}

#[test]
fn pinned_notes_come_first() {
    let mut nm = manager_with(&["a", "b", "c", "d"]);
    nm.get_note_by_id(2).unwrap().pinned = true;
    nm.get_note_by_id(4).unwrap().pinned = true;
    assert_eq!(nm.display_order(), vec![1, 3, 0, 2]);
}

#[test]
fn deleting_all_notes_moves_them_to_the_trash_in_order() {
    let mut nm = manager_with(&["a", "b", "c"]);
    nm.delete_note_by_id(2);
    nm.delete_all_notes();
    assert!(nm.notes.is_empty());
    assert_eq!(trash_ids(&nm), vec![2, 1, 3]);
    assert_eq!(nm.undo_delete(), Some(3));
    assert_eq!(ids(&nm), vec![3]);
    let mut empty = NoteManager::new();
    empty.delete_all_notes();
    assert!(empty.notes.is_empty() && empty.trash.is_empty());
}

#[test]
fn pinned_positions_in_order() {
    let mut nm = manager_with(&["a", "b", "c", "d"]);
    assert!(nm.pinned_positions().is_empty());
    nm.get_note_by_id(4).unwrap().pinned = true;
    nm.get_note_by_id(2).unwrap().pinned = true;
    assert_eq!(nm.pinned_positions(), vec![1, 3]);
}

#[test]
fn templates_by_menu_choice() {
    assert_eq!(template_for("2"), Some("## Attendees\n\n## Agenda\n\n## Action Items\n\n## Notes\n"));
    assert_eq!(template_for("3"), Some("## To-Do\n\n- [ ] Item 1\n- [ ] Item 2\n- [ ] Item 3\n"));
    assert_eq!(
        template_for("4"),
        Some("## Date\n\n## How I'm feeling\n\n## Today's highlights\n\n## Reflections\n")
    );
    assert_eq!(template_for("1"), None);
    assert_eq!(template_for(""), None);
    assert_eq!(template_for("5"), None);
}

#[test]
fn clearing_due_reminders_by_the_clock() {
    let mut nm = manager_with(&["past", "future", "none"]);
    nm.set_reminder(1, 1);
    nm.set_reminder(2, u64::MAX);
    nm.clear_due_reminders();
    assert_eq!(nm.notes[0].reminder, None);
    assert_eq!(nm.notes[1].reminder, Some(u64::MAX));
    assert_eq!(nm.notes[2].reminder, None);
    assert_eq!(nm.notes.len(), 3);
}

#[test]
fn opening_a_locked_note_asks_for_its_password() {
    let mut nm = manager_with(&["open", "locked"]);
    nm.set_password(2, "pw".to_string());
    assert!(!nm.needs_password(1));
    assert!(nm.needs_password(2));
    assert!(!nm.needs_password(9));
    assert!(nm.check_password(2, "pw"));
    assert!(!nm.check_password(2, "PW"));
}
