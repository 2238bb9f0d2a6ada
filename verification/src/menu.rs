//! The choices of the terminal menus: which command an answer at a menu
//! prompt selects.  The program prints the menus and reads the answers; what
//! an answer means is decided here.
use vstd::prelude::*;
use crate::text::str_eq;

verus! {

/// The commands of the main menu.
#[derive(Debug, Clone, Copy, PartialEq, Eq, Structural)]
pub enum MainCommand {
    CreateNote,
    OpenNote,
    ShowAll,
    Search,
    Pinned,
    Dashboard,
    DeleteAll,
    Save,
    Load,
    Settings,
    Help,
    Exit,
    Trash,
    Unknown,
}

/// `1` to `13` select the commands in the order the menu lists them; `q`,
/// `quit` and `exit` also exit.
pub open spec fn main_command_of(s: Seq<char>) -> MainCommand {
    if s == "1"@ {
        MainCommand::CreateNote
    } else if s == "2"@ {
        MainCommand::OpenNote
    } else if s == "3"@ {
        MainCommand::ShowAll
    } else if s == "4"@ {
        MainCommand::Search
    } else if s == "5"@ {
        MainCommand::Pinned
    } else if s == "6"@ {
        MainCommand::Dashboard
    } else if s == "7"@ {
        MainCommand::DeleteAll
    } else if s == "8"@ {
        MainCommand::Save
    } else if s == "9"@ {
        MainCommand::Load
    } else if s == "10"@ {
        MainCommand::Settings
    } else if s == "11"@ {
        MainCommand::Help
    } else if s == "12"@ || s == "q"@ || s == "quit"@ || s == "exit"@ {
        MainCommand::Exit
    } else if s == "13"@ {
        MainCommand::Trash
    } else {
        MainCommand::Unknown
    }
}

pub fn main_command(answer: &str) -> (r: MainCommand)
    ensures
        r == main_command_of(answer@),
{
    if str_eq(answer, "1") {
        MainCommand::CreateNote
    } else if str_eq(answer, "2") {
        MainCommand::OpenNote
    } else if str_eq(answer, "3") {
        MainCommand::ShowAll
    } else if str_eq(answer, "4") {
        MainCommand::Search
    } else if str_eq(answer, "5") {
        MainCommand::Pinned
    } else if str_eq(answer, "6") {
        MainCommand::Dashboard
    } else if str_eq(answer, "7") {
        MainCommand::DeleteAll
    } else if str_eq(answer, "8") {
        MainCommand::Save
    } else if str_eq(answer, "9") {
        MainCommand::Load
    } else if str_eq(answer, "10") {
        MainCommand::Settings
    } else if str_eq(answer, "11") {
        MainCommand::Help
    } else if str_eq(answer, "12") || str_eq(answer, "q") || str_eq(answer, "quit") || str_eq(answer, "exit") {
        MainCommand::Exit
    } else if str_eq(answer, "13") {
        MainCommand::Trash
    } else {
        MainCommand::Unknown
    }
}

/// The commands of an open note's menu.
#[derive(Debug, Clone, Copy, PartialEq, Eq, Structural)]
pub enum NoteCommand {
    Edit,
    TogglePin,
    SetColor,
    Tags,
    Diff,
    Export,
    Import,
    Password,
    Reminder,
    Link,
    Delete,
    ViewLinked,
    DeleteVersion,
    EditVersion,
    Back,
    Unknown,
}

/// `a` to `k` and then `m`, `n`, `o` select the commands in the order the
/// menu lists them (`l` selects nothing); `0` or an empty answer goes back.
pub open spec fn note_command_of(s: Seq<char>) -> NoteCommand {
    if s == "a"@ {
        NoteCommand::Edit
    } else if s == "b"@ {
        NoteCommand::TogglePin
    } else if s == "c"@ {
        NoteCommand::SetColor
    } else if s == "d"@ {
        NoteCommand::Tags
    } else if s == "e"@ {
        NoteCommand::Diff
    } else if s == "f"@ {
        NoteCommand::Export
    } else if s == "g"@ {
        NoteCommand::Import
    } else if s == "h"@ {
        NoteCommand::Password
    } else if s == "i"@ {
        NoteCommand::Reminder
    } else if s == "j"@ {
        NoteCommand::Link
    } else if s == "k"@ {
        NoteCommand::Delete
    } else if s == "m"@ {
        NoteCommand::ViewLinked
    } else if s == "n"@ {
        NoteCommand::DeleteVersion
    } else if s == "o"@ {
        NoteCommand::EditVersion
    } else if s == "0"@ || s == ""@ {
        NoteCommand::Back
    } else {
        NoteCommand::Unknown
    }
}

pub fn note_command(answer: &str) -> (r: NoteCommand)
    ensures
        r == note_command_of(answer@),
{
    if str_eq(answer, "a") {
        NoteCommand::Edit
    } else if str_eq(answer, "b") {
        NoteCommand::TogglePin
    } else if str_eq(answer, "c") {
        NoteCommand::SetColor
    } else if str_eq(answer, "d") {
        NoteCommand::Tags
    } else if str_eq(answer, "e") {
        NoteCommand::Diff
    } else if str_eq(answer, "f") {
        NoteCommand::Export
    } else if str_eq(answer, "g") {
        NoteCommand::Import
    } else if str_eq(answer, "h") {
        NoteCommand::Password
    } else if str_eq(answer, "i") {
        NoteCommand::Reminder
    } else if str_eq(answer, "j") {
        NoteCommand::Link
    } else if str_eq(answer, "k") {
        NoteCommand::Delete
    } else if str_eq(answer, "m") {
        NoteCommand::ViewLinked
    } else if str_eq(answer, "n") {
        NoteCommand::DeleteVersion
    } else if str_eq(answer, "o") {
        NoteCommand::EditVersion
    } else if str_eq(answer, "0") || str_eq(answer, "") {
        NoteCommand::Back
    } else {
        NoteCommand::Unknown
    }
}

/// The commands of the trash menu.
#[derive(Debug, Clone, Copy, PartialEq, Eq, Structural)]
pub enum TrashCommand {
    RestoreById,
    RestoreAll,
    DeleteById,
    EmptyTrash,
    /// One of the four commands, with nothing in the trash to act on.
    NothingInTrash,
    Back,
    Unknown,
}

/// `1` to `4` select the commands in the order the menu lists them, each
/// refused while the trash is empty; `0` or an empty answer goes back.
pub open spec fn trash_command_of(s: Seq<char>, trash_empty: bool) -> TrashCommand {
    let c = if s == "1"@ {
        TrashCommand::RestoreById
    } else if s == "2"@ {
        TrashCommand::RestoreAll
    } else if s == "3"@ {
        TrashCommand::DeleteById
    } else if s == "4"@ {
        TrashCommand::EmptyTrash
    } else if s == "0"@ || s == ""@ {
        TrashCommand::Back
    } else {
        TrashCommand::Unknown
    };
    if trash_empty && (c == TrashCommand::RestoreById || c == TrashCommand::RestoreAll || c
        == TrashCommand::DeleteById || c == TrashCommand::EmptyTrash) {
        TrashCommand::NothingInTrash
    } else {
        c
    }
}

pub fn trash_command(answer: &str, trash_empty: bool) -> (r: TrashCommand)
    ensures
        r == trash_command_of(answer@, trash_empty),
{
    let c = if str_eq(answer, "1") {
        TrashCommand::RestoreById
    } else if str_eq(answer, "2") {
        TrashCommand::RestoreAll
    } else if str_eq(answer, "3") {
        TrashCommand::DeleteById
    } else if str_eq(answer, "4") {
        TrashCommand::EmptyTrash
    } else if str_eq(answer, "0") || str_eq(answer, "") {
        TrashCommand::Back
    } else {
        TrashCommand::Unknown
    };
    let acts = match c {
        TrashCommand::RestoreById | TrashCommand::RestoreAll | TrashCommand::DeleteById
        | TrashCommand::EmptyTrash => true,
        _ => false,
    };
    if trash_empty && acts {
        TrashCommand::NothingInTrash
    } else {
        c
    }
}

/// The kinds of search.
#[derive(Debug, Clone, Copy, PartialEq, Eq, Structural)]
pub enum SearchMode {
    FullText,
    ByTag,
    ByTitle,
    ByContent,
}

/// `2`, `3` and `4` search by tag, title and content; any other answer
/// searches the full text.
pub open spec fn search_mode_of(s: Seq<char>) -> SearchMode {
    if s == "2"@ {
        SearchMode::ByTag
    } else if s == "3"@ {
        SearchMode::ByTitle
    } else if s == "4"@ {
        SearchMode::ByContent
    } else {
        SearchMode::FullText
    }
}

pub fn search_mode(answer: &str) -> (r: SearchMode)
    ensures
        r == search_mode_of(answer@),
{
    if str_eq(answer, "2") {
        SearchMode::ByTag
    } else if str_eq(answer, "3") {
        SearchMode::ByTitle
    } else if str_eq(answer, "4") {
        SearchMode::ByContent
    } else {
        SearchMode::FullText
    }
}

/// The commands of a note's tag editor.
#[derive(Debug, Clone, Copy, PartialEq, Eq, Structural)]
pub enum TagCommand {
    Add,
    Remove,
    AddToAll,
    RemoveFromAll,
    Nothing,
}

/// `1` to `4` select the commands in the order the menu lists them; any
/// other answer does nothing.
pub open spec fn tag_command_of(s: Seq<char>) -> TagCommand {
    if s == "1"@ {
        TagCommand::Add
    } else if s == "2"@ {
        TagCommand::Remove
    } else if s == "3"@ {
        TagCommand::AddToAll
    } else if s == "4"@ {
        TagCommand::RemoveFromAll
    } else {
        TagCommand::Nothing
    }
}

pub fn tag_command(answer: &str) -> (r: TagCommand)
    ensures
        r == tag_command_of(answer@),
{
    if str_eq(answer, "1") {
        TagCommand::Add
    } else if str_eq(answer, "2") {
        TagCommand::Remove
    } else if str_eq(answer, "3") {
        TagCommand::AddToAll
    } else if str_eq(answer, "4") {
        TagCommand::RemoveFromAll
    } else {
        TagCommand::Nothing
    }
}

/// A choice between two commands, as the password, link and settings menus
/// offer: `1` selects the first, `2` the second, any other answer nothing.
#[derive(Debug, Clone, Copy, PartialEq, Eq, Structural)]
pub enum PairChoice {
    First,
    Second,
    Nothing,
}

pub open spec fn pair_choice_of(s: Seq<char>) -> PairChoice {
    if s == "1"@ {
        PairChoice::First
    } else if s == "2"@ {
        PairChoice::Second
    } else {
        PairChoice::Nothing
    }
}

pub fn pair_choice(answer: &str) -> (r: PairChoice)
    ensures
        r == pair_choice_of(answer@),
{
    if str_eq(answer, "1") {
        PairChoice::First
    } else if str_eq(answer, "2") {
        PairChoice::Second
    } else {
        PairChoice::Nothing
    }
}

/// The export formats: `1` selects Markdown, any other answer plain text.
#[derive(Debug, Clone, Copy, PartialEq, Eq, Structural)]
pub enum ExportFormat {
    Markdown,
    PlainText,
}

pub open spec fn export_format_of(s: Seq<char>) -> ExportFormat {
    if s == "1"@ {
        ExportFormat::Markdown
    } else {
        ExportFormat::PlainText
    }
}

pub fn export_format(answer: &str) -> (r: ExportFormat)
    ensures
        r == export_format_of(answer@),
{
    if str_eq(answer, "1") {
        ExportFormat::Markdown
    } else {
        ExportFormat::PlainText
    }
}

} // verus!
