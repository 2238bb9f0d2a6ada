use lib::menu::{
    export_format, main_command, note_command, pair_choice, search_mode, tag_command, trash_command, ExportFormat,
    MainCommand, NoteCommand, PairChoice, SearchMode, TagCommand, TrashCommand,
};

#[test]
fn main_menu_answers() {
    assert_eq!(main_command("1"), MainCommand::CreateNote);
    assert_eq!(main_command("2"), MainCommand::OpenNote);
    assert_eq!(main_command("6"), MainCommand::Dashboard);
    assert_eq!(main_command("10"), MainCommand::Settings);
    assert_eq!(main_command("13"), MainCommand::Trash);
    for exit in ["12", "q", "quit", "exit"] {
        assert_eq!(main_command(exit), MainCommand::Exit);
    }
    assert_eq!(main_command("14"), MainCommand::Unknown);
    assert_eq!(main_command(""), MainCommand::Unknown);
    assert_eq!(main_command("Q"), MainCommand::Unknown);
}

#[test]
fn note_menu_answers() {
    assert_eq!(note_command("a"), NoteCommand::Edit);
    assert_eq!(note_command("b"), NoteCommand::TogglePin);
    assert_eq!(note_command("k"), NoteCommand::Delete);
    assert_eq!(note_command("l"), NoteCommand::Unknown);
    assert_eq!(note_command("m"), NoteCommand::ViewLinked);
    assert_eq!(note_command("n"), NoteCommand::DeleteVersion);
    assert_eq!(note_command("o"), NoteCommand::EditVersion);
    assert_eq!(note_command("0"), NoteCommand::Back);
    assert_eq!(note_command(""), NoteCommand::Back);
    assert_eq!(note_command("p"), NoteCommand::Unknown);
    assert_eq!(note_command("A"), NoteCommand::Unknown);
}

#[test]
fn trash_menu_answers() {
    assert_eq!(trash_command("1", false), TrashCommand::RestoreById);
    assert_eq!(trash_command("2", false), TrashCommand::RestoreAll);
    assert_eq!(trash_command("3", false), TrashCommand::DeleteById);
    assert_eq!(trash_command("4", false), TrashCommand::EmptyTrash);
    for c in ["1", "2", "3", "4"] {
        assert_eq!(trash_command(c, true), TrashCommand::NothingInTrash);
    }
    assert_eq!(trash_command("0", true), TrashCommand::Back);
    assert_eq!(trash_command("", false), TrashCommand::Back);
    assert_eq!(trash_command("5", true), TrashCommand::Unknown);
}

#[test]
fn search_modes() {
    assert_eq!(search_mode("1"), SearchMode::FullText);
    assert_eq!(search_mode("2"), SearchMode::ByTag);
    assert_eq!(search_mode("3"), SearchMode::ByTitle);
    assert_eq!(search_mode("4"), SearchMode::ByContent);
    assert_eq!(search_mode("anything"), SearchMode::FullText);
}

#[test]
fn small_menu_answers() {
    assert_eq!(tag_command("1"), TagCommand::Add);
    assert_eq!(tag_command("2"), TagCommand::Remove);
    assert_eq!(tag_command("3"), TagCommand::AddToAll);
    assert_eq!(tag_command("4"), TagCommand::RemoveFromAll);
    assert_eq!(tag_command("0"), TagCommand::Nothing);
    assert_eq!(pair_choice("1"), PairChoice::First);
    assert_eq!(pair_choice("2"), PairChoice::Second);
    assert_eq!(pair_choice("3"), PairChoice::Nothing);
    assert_eq!(pair_choice(""), PairChoice::Nothing);
    assert_eq!(export_format("1"), ExportFormat::Markdown);
    assert_eq!(export_format("2"), ExportFormat::PlainText);
    assert_eq!(export_format("md"), ExportFormat::PlainText);
}
