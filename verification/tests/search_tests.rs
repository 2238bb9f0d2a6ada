use lib::manager::NoteManager;
use lib::search::{search_by_content, search_by_tag, search_by_title, search_full_text};

fn sample() -> NoteManager {
    let mut nm = NoteManager::new();
    nm.create_note_at("Shopping List".to_string(), 1);
    nm.create_note_at("Meeting".to_string(), 2);
    nm.create_note_at("Ideas".to_string(), 3);
    nm.get_note_by_id(1).unwrap().add_version_at("milk and EGGS".to_string(), 1, 1);
    nm.get_note_by_id(1).unwrap().add_version_at("bread".to_string(), 1, 1);
    nm.get_note_by_id(1).unwrap().add_version_at("more eggs".to_string(), 1, 1);
    nm.get_note_by_id(2).unwrap().add_version_at("agenda".to_string(), 1, 1);
    nm.add_tag_to_note(3, "Work");
    nm
}

#[test]
fn title_search_ignores_case() {
    let nm = sample();
    assert_eq!(search_by_title(&nm.notes, "SHOP"), vec![0]);
    assert_eq!(search_by_title(&nm.notes, "i"), vec![0, 1, 2]);
    assert!(search_by_title(&nm.notes, "zzz").is_empty());
}

#[test]
fn tag_search() {
    let nm = sample();
    assert_eq!(search_by_tag(&nm.notes, "work"), vec![2]);
    assert_eq!(search_by_tag(&nm.notes, "GEN"), vec![0, 1, 2]);
}

#[test]
fn content_search_finds_latest_matching_version() {
    let nm = sample();
    let found = search_by_content(&nm.notes, "Eggs");
    assert_eq!(found.len(), 1);
    assert_eq!(found[0].0, 0);
    assert_eq!(found[0].1.content, "more eggs");
    assert_eq!(found[0].1.version_number, 3);
    let agenda = search_by_content(&nm.notes, "agenda");
    assert_eq!((agenda[0].0, agenda[0].1.version_number), (1, 1));
    assert!(search_by_content(&nm.notes, "nothing").is_empty());
}

#[test]
fn full_text_is_the_union() {
    let nm = sample();
    assert_eq!(search_full_text(&nm.notes, "bread"), vec![0]);
    assert_eq!(search_full_text(&nm.notes, "work"), vec![2]);
    assert_eq!(search_full_text(&nm.notes, "meet"), vec![1]);
    for q in ["e", "work", "bread", "x", "GENERAL", ""] {
        let full = search_full_text(&nm.notes, q);
        let mut union: Vec<usize> = search_by_title(&nm.notes, q);
        union.extend(search_by_tag(&nm.notes, q));
        union.extend(search_by_content(&nm.notes, q).into_iter().map(|(i, _)| i));
        union.sort();
        union.dedup();
        assert_eq!(full, union);
    }
}

#[test]
fn lowercasing_reaches_non_ascii_titles() {
    let mut nm = NoteManager::new();
    nm.create_note_at("ÉTÉ Plans".to_string(), 1);
    nm.create_note_at("planets".to_string(), 2);
    assert_eq!(search_by_title(&nm.notes, "été"), vec![0]);
    assert_eq!(search_by_title(&nm.notes, "PLAN"), vec![0, 1]);
}
