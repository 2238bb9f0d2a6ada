use lib::manager::NoteManager;
use lib::stats::{dashboard_stats, dashboard_stats_at, totals_fit_check};

fn sample() -> NoteManager {
    let mut nm = NoteManager::new();
    nm.create_note_at("a".to_string(), 1);
    nm.create_note_at("b".to_string(), 2);
    nm.create_note_at("c".to_string(), 3);
    nm.get_note_by_id(1).unwrap().add_version_at("one two".to_string(), 1, 1);
    nm.get_note_by_id(2).unwrap().add_version_at("three".to_string(), 1, 1);
    nm.get_note_by_id(2).unwrap().add_version_at("four five six".to_string(), 1, 1);
    nm.get_note_by_id(3).unwrap().add_version_at("x y".to_string(), 1, 1);
    nm.get_note_by_id(3).unwrap().add_version_at("z".to_string(), 1, 1);
    nm.get_note_by_id(1).unwrap().pinned = true;
    nm.add_tag_to_note(1, "work");
    nm.add_tag_to_note(3, "work");
    nm.add_tag_to_note(3, "home");
    nm.set_reminder(2, 50);
    nm.create_note_at("gone".to_string(), 4);
    nm.delete_note_by_id(4);
    nm
}

#[test]
fn dashboard_figures() {
    let nm = sample();
    assert!(totals_fit_check(&nm));
    let s = dashboard_stats_at(&nm, 100);
    assert_eq!(s.total_notes, 3);
    assert_eq!(s.total_versions, 5);
    assert_eq!(s.pinned, 1);
    assert_eq!(s.total_words, 2 + 4 + 3);
    assert_eq!(s.total_chars, 7 + 13 + 1);
    assert_eq!(s.due_reminders, 1);
    assert_eq!(s.trash_count, 1);
    // notes 2 and 3 both have two versions: the last of them is taken
    assert_eq!(s.most_versioned, Some(2));
    assert_eq!(s.most_words, Some(1));
    let tags: Vec<(String, usize)> = s.tag_counts.clone();
    assert_eq!(
        tags,
        vec![("general".to_string(), 3), ("work".to_string(), 2), ("home".to_string(), 1)]
    );
    assert_eq!(dashboard_stats_at(&nm, 10).due_reminders, 0);
    assert_eq!(dashboard_stats(&nm).due_reminders, 1);
}

#[test]
fn empty_dashboard() {
    let nm = NoteManager::new();
    let s = dashboard_stats_at(&nm, 0);
    assert_eq!((s.total_notes, s.total_versions, s.total_words), (0, 0, 0));
    assert_eq!(s.most_versioned, None);
    assert_eq!(s.most_words, None);
    assert!(s.tag_counts.is_empty());
}
