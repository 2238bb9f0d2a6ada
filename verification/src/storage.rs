//! The text format in which notes are saved, and reading it back.
//!
//! Each note is one header line
//! `Note ID: 1, Title: T, Pinned: false, Tags: a|b, Color: red, CreatedAt: 0, UpdatedAt: 0, Password: , Reminder: , Links: 2|3`
//! followed by one line per version, `Version 1, CreatedAt: 0: content`.
//! Older files with headers of only some fields, or version lines
//! `Version 1: content`, are read too.
use vstd::prelude::*;
use crate::manager::{empty_manager, ManagerView, NoteManager};
use crate::note::{color_name, color_named, Note, NoteColor, NoteView, Version, VersionView};
use crate::text::{
    append_str, chars_of, chars_views, concat, contains, contains_chars, decimal, find_or_len,
    find_or_len_chars, join, join_strings, lines, lowercase_of, parse_u32, parse_u32_spec, parse_u64,
    parse_u64_spec, push_decimal, split_chars, split_lines, split_n, split_n_chars, split_on, starts_with,
    starts_with_chars, string_of, strip_all_prefix, strip_all_prefix_chars, strip_prefix, strip_prefix_chars,
    sub_chars, trim, trim_chars, views,
};

verus! {

broadcast use vstd::string::group_string_axioms;

// ---------------------------------------------------------------------------
// Writing
// ---------------------------------------------------------------------------

pub open spec fn bool_text(b: bool) -> Seq<char> {
    if b { "true"@ } else { "false"@ }
}

pub open spec fn decimal_u32(x: u32) -> Seq<char> {
    decimal(x as nat)
}

pub open spec fn password_text(n: NoteView) -> Seq<char> {
    match n.password {
        Some(p) => p,
        None => ""@,
    }
}

pub open spec fn reminder_text(n: NoteView) -> Seq<char> {
    match n.reminder {
        Some(r) => decimal(r as nat),
        None => ""@,
    }
}

pub open spec fn links_text(links: Seq<u32>) -> Seq<char> {
    join(links.map_values(|l: u32| decimal_u32(l)), "|"@)
}

/// The first fields of a header line: id, title, pinned flag and tags.
pub open spec fn header_head(n: NoteView) -> Seq<char> {
    "Note ID: "@ + decimal(n.id as nat) + ", Title: "@ + n.title + ", Pinned: "@ + bool_text(n.pinned)
        + ", Tags: "@ + join(n.tags, "|"@)
}

pub open spec fn header_times(n: NoteView) -> Seq<char> {
    ", Color: "@ + color_name(n.color) + ", CreatedAt: "@ + decimal(n.created_at as nat) + ", UpdatedAt: "@
        + decimal(n.updated_at as nat)
}

pub open spec fn header_extras(n: NoteView) -> Seq<char> {
    ", Password: "@ + password_text(n) + ", Reminder: "@ + reminder_text(n)
}

/// The last fields of a header line: colour, times, password, reminder and
/// links, with the line feed.
pub open spec fn header_tail(n: NoteView) -> Seq<char> {
    header_times(n) + header_extras(n) + ", Links: "@ + links_text(n.links) + "\n"@
}

/// The header line of a note, with its line feed.
pub open spec fn header_line(n: NoteView) -> Seq<char> {
    header_head(n) + header_tail(n)
}

/// The line of a version, with its line feed.
pub open spec fn version_record(v: VersionView) -> Seq<char> {
    "Version "@ + decimal(v.version_number as nat) + ", CreatedAt: "@ + decimal(v.created_at as nat) + ": "@
        + v.content + "\n"@
}

pub open spec fn note_record(n: NoteView) -> Seq<char> {
    header_line(n) + concat(n.versions.map_values(|v: VersionView| version_record(v)))
}

/// The saved text of the notes (the trash is not saved).
pub open spec fn storage_text_of(m: ManagerView) -> Seq<char> {
    concat(m.notes.map_values(|n: NoteView| note_record(n)))
}

fn push_links(out: &mut String, links: &Vec<u32>)
    ensures
        final(out)@ == old(out)@ + links_text(links@),
{
    let ghost ls = links@.map_values(|l: u32| decimal_u32(l));
    let mut i: usize = 0;
    assert(ls.take(0) =~= Seq::<Seq<char>>::empty());
    while i < links.len()
        invariant
            i <= links.len(),
            ls == links@.map_values(|l: u32| decimal_u32(l)),
            out@ == old(out)@ + join(ls.take(i as int), "|"@),
        decreases links.len() - i,
    {
        let ghost before = out@;
        if i > 0 {
            append_str(out, "|");
        }
        push_decimal(out, links[i] as u64);
        assert(ls.take(i + 1).drop_last() =~= ls.take(i as int));
        assert(ls.take(i + 1).last() == decimal(links@[i as int] as nat));
        if i == 0 {
            assert(out@ =~= old(out)@ + join(ls.take(i + 1), "|"@));
        } else {
            assert(out@ =~= old(out)@ + join(ls.take(i + 1), "|"@));
        }
        i += 1;
    }
    assert(ls.take(i as int) =~= ls);
}

fn push_header_head(out: &mut String, n: &Note)
    ensures
        final(out)@ == old(out)@ + header_head(n@),
{
    append_str(out, "Note ID: ");
    push_decimal(out, n.id as u64);
    append_str(out, ", Title: ");
    append_str(out, n.title.as_str());
    append_str(out, ", Pinned: ");
    append_str(out, if n.pinned { "true" } else { "false" });
    append_str(out, ", Tags: ");
    let tags = join_strings(&n.tags, "|");
    append_str(out, tags.as_str());
    assert(out@ =~= old(out)@ + header_head(n@));
}

fn push_header_times(out: &mut String, n: &Note)
    ensures
        final(out)@ == old(out)@ + header_times(n@),
{
    append_str(out, ", Color: ");
    append_str(out, n.color.as_str());
    append_str(out, ", CreatedAt: ");
    push_decimal(out, n.created_at);
    append_str(out, ", UpdatedAt: ");
    push_decimal(out, n.updated_at);
    assert(out@ =~= old(out)@ + header_times(n@));
}

fn push_header_extras(out: &mut String, n: &Note)
    ensures
        final(out)@ == old(out)@ + header_extras(n@),
{
    append_str(out, ", Password: ");
    match &n.password {
        Some(p) => append_str(out, p.as_str()),
        None => append_str(out, ""),
    }
    let ghost a = out@;
    assert(a =~= old(out)@ + ", Password: "@ + password_text(n@));
    append_str(out, ", Reminder: ");
    match n.reminder {
        Some(r) => push_decimal(out, r),
        None => append_str(out, ""),
    }
    assert(out@ =~= a + ", Reminder: "@ + reminder_text(n@));
    assert(out@ =~= old(out)@ + header_extras(n@));
}

fn push_header_tail(out: &mut String, n: &Note)
    ensures
        final(out)@ == old(out)@ + header_tail(n@),
{
    push_header_times(out, n);
    push_header_extras(out, n);
    append_str(out, ", Links: ");
    push_links(out, &n.links);
    append_str(out, "\n");
    assert(out@ =~= old(out)@ + header_tail(n@));
}

fn push_header(out: &mut String, n: &Note)
    ensures
        final(out)@ == old(out)@ + header_line(n@),
{
    push_header_head(out, n);
    push_header_tail(out, n);
    assert(out@ =~= old(out)@ + header_line(n@));
}

fn push_note_record(out: &mut String, n: &Note)
    ensures
        final(out)@ == old(out)@ + note_record(n@),
{
    push_header(out, n);
    let ghost vs = n@.versions.map_values(|v: VersionView| version_record(v));
    let ghost start = out@;
    let mut i: usize = 0;
    assert(vs.take(0) =~= Seq::<Seq<char>>::empty());
    while i < n.versions.len()
        invariant
            i <= n.versions.len(),
            vs == n@.versions.map_values(|v: VersionView| version_record(v)),
            out@ == start + concat(vs.take(i as int)),
        decreases n.versions.len() - i,
    {
        let ghost before = out@;
        let v = &n.versions[i];
        append_str(out, "Version ");
        push_decimal(out, v.version_number as u64);
        append_str(out, ", CreatedAt: ");
        push_decimal(out, v.created_at);
        append_str(out, ": ");
        append_str(out, v.content.as_str());
        append_str(out, "\n");
        assert(vs.take(i + 1).drop_last() =~= vs.take(i as int));
        assert(vs.take(i + 1).last() == version_record(v@));
        assert(out@ =~= before + version_record(v@));
        i += 1;
    }
    assert(vs.take(i as int) =~= vs);
}

/// The text that saving writes for the notes.
pub fn storage_text(nm: &NoteManager) -> (r: String)
    ensures
        r@ == storage_text_of(nm@),
{
    let ghost rs = nm@.notes.map_values(|n: NoteView| note_record(n));
    let mut out = String::new();
    let mut i: usize = 0;
    assert(rs.take(0) =~= Seq::<Seq<char>>::empty());
    while i < nm.notes.len()
        invariant
            i <= nm.notes.len(),
            rs == nm@.notes.map_values(|n: NoteView| note_record(n)),
            out@ == concat(rs.take(i as int)),
        decreases nm.notes.len() - i,
    {
        let ghost before = out@;
        push_note_record(&mut out, &nm.notes[i]);
        assert(rs.take(i + 1).drop_last() =~= rs.take(i as int));
        assert(rs.take(i + 1).last() == note_record(nm@.notes[i as int]));
        i += 1;
    }
    assert(rs.take(i as int) =~= rs);
    out
}


// ---------------------------------------------------------------------------
// Reading
// ---------------------------------------------------------------------------

/// The `k`-th comma-separated part of a header, trimmed, with its label
/// removed; `None` when the part is missing or lacks the label.
pub open spec fn field(parts: Seq<Seq<char>>, k: int, label: Seq<char>) -> Option<Seq<char>> {
    if 0 <= k < parts.len() {
        strip_prefix(trim(parts[k]), label)
    } else {
        None
    }
}

pub open spec fn header_parts(line: Seq<char>) -> Seq<Seq<char>> {
    split_n(line, 11, ',')
}

pub open spec fn parsed_id(parts: Seq<Seq<char>>) -> u32 {
    match strip_prefix(parts[0], "Note ID:"@) {
        Some(r) => match parse_u32_spec(trim(r)) {
            Some(v) => v,
            None => 0,
        },
        None => 0,
    }
}

pub open spec fn parsed_u64_field(parts: Seq<Seq<char>>, k: int, label: Seq<char>) -> Option<u64> {
    match field(parts, k, label) {
        Some(t) => parse_u64_spec(trim(t)),
        None => None,
    }
}

pub open spec fn parsed_tags(parts: Seq<Seq<char>>) -> Seq<Seq<char>> {
    match field(parts, 3, "Tags:"@) {
        Some(t) => split_on(trim(t), '|'),
        None => seq!["general"@],
    }
}

pub open spec fn parsed_color(parts: Seq<Seq<char>>) -> NoteColor {
    match field(parts, 4, "Color:"@) {
        Some(t) => color_named(lowercase_of(trim(trim(t)))),
        None => NoteColor::Default,
    }
}

pub open spec fn parsed_password(parts: Seq<Seq<char>>) -> Option<Seq<char>> {
    match field(parts, 7, "Password:"@) {
        Some(t) => if trim(t).len() > 0 { Some(trim(t)) } else { None },
        None => None,
    }
}

pub open spec fn parsed_links(parts: Seq<Seq<char>>) -> Seq<u32> {
    match field(parts, 9, "Links:"@) {
        Some(t) => split_on(trim(t), '|').filter_map(|x: Seq<char>| parse_u32_spec(x)),
        None => seq![],
    }
}

/// The note that a header line describes (its versions follow on their own
/// lines).  Missing or unreadable fields take defaults: id 0, empty title,
/// unpinned, the tag "general", default colour, times 0, no password, no
/// reminder, no links.
pub open spec fn header_note(line: Seq<char>) -> NoteView {
    let parts = header_parts(line);
    NoteView {
        id: parsed_id(parts),
        title: match field(parts, 1, "Title:"@) {
            Some(t) => trim(t),
            None => seq![],
        },
        versions: seq![],
        pinned: match field(parts, 2, "Pinned:"@) {
            Some(t) => trim(t) == "true"@,
            None => false,
        },
        tags: parsed_tags(parts),
        color: parsed_color(parts),
        created_at: match parsed_u64_field(parts, 5, "CreatedAt:"@) {
            Some(v) => v,
            None => 0,
        },
        updated_at: match parsed_u64_field(parts, 6, "UpdatedAt:"@) {
            Some(v) => v,
            None => 0,
        },
        password: parsed_password(parts),
        reminder: parsed_u64_field(parts, 8, "Reminder:"@),
        links: parsed_links(parts),
    }
}

/// The timestamp and content that a version line holds.
pub open spec fn version_fields(line: Seq<char>) -> (u64, Seq<char>) {
    if contains(line, ", CreatedAt:"@) {
        let after = strip_all_prefix(line, "Version "@);
        let rest = after.skip(find_or_len(after, ','));
        match strip_prefix(rest, ", CreatedAt: "@) {
            Some(stripped) => {
                let colon = find_or_len(stripped, ':');
                (
                    match parse_u64_spec(trim(stripped.take(colon))) {
                        Some(v) => v,
                        None => 0,
                    },
                    trim(strip_all_prefix(stripped.skip(colon), ":"@)),
                )
            },
            None => (0, trim(strip_all_prefix(rest, ":"@))),
        }
    } else {
        let ps = split_n(line, 2, ':');
        (0, if ps.len() > 1 { trim(ps[1]) } else { seq![] })
    }
}

/// Reading one line.  `None` stands for a number that would pass the
/// largest `u32` (the next id, or a version number).
pub open spec fn load_line(m: ManagerView, line: Seq<char>) -> Option<ManagerView> {
    if starts_with(line, "Note ID:"@) {
        let n = header_note(line);
        if m.next_id == u32::MAX || n.id == u32::MAX {
            None
        } else {
            let next = (m.next_id + 1) as u32;
            Some(
                ManagerView {
                    notes: m.notes.push(n),
                    next_id: if n.id >= next { (n.id + 1) as u32 } else { next },
                    ..m
                },
            )
        }
    } else if starts_with(line, "Version "@) && m.notes.len() > 0 {
        let last = m.notes.last();
        if last.versions.len() >= u32::MAX {
            None
        } else {
            let (ts, content) = version_fields(line);
            let v = VersionView { version_number: (last.versions.len() + 1) as u32, content, created_at: ts };
            Some(
                ManagerView {
                    notes: m.notes.update(
                        m.notes.len() - 1,
                        NoteView {
                            versions: last.versions.push(v),
                            updated_at: if last.updated_at >= ts { last.updated_at } else { ts },
                            ..last
                        },
                    ),
                    ..m
                },
            )
        }
    } else {
        Some(m)
    }
}

pub open spec fn load_lines(ls: Seq<Seq<char>>) -> Option<ManagerView>
    decreases ls.len(),
{
    if ls.len() == 0 {
        Some(empty_manager())
    } else {
        match load_lines(ls.drop_last()) {
            Some(m) => load_line(m, ls.last()),
            None => None,
        }
    }
}

/// What reading a saved text gives: its lines read in order into an empty
/// manager, or `None` where reading would pass the largest `u32`.
pub open spec fn loaded(text: Seq<char>) -> Option<ManagerView> {
    load_lines(lines(text))
}

fn field_of(parts: &Vec<Vec<char>>, k: usize, label: &str) -> (r: Option<Vec<char>>)
    ensures
        match r {
            Some(v) => field(chars_views(parts@), k as int, label@) == Some(v@),
            None => field(chars_views(parts@), k as int, label@) is None,
        },
{
    if k < parts.len() {
        let t = trim_chars(&parts[k]);
        strip_prefix_chars(&t, label)
    } else {
        None
    }
}

fn u64_field_of(parts: &Vec<Vec<char>>, k: usize, label: &str) -> (r: Option<u64>)
    ensures
        r == parsed_u64_field(chars_views(parts@), k as int, label@),
{
    match field_of(parts, k, label) {
        Some(t) => parse_u64(&trim_chars(&t)),
        None => None,
    }
}

fn strings_of(parts: &Vec<Vec<char>>) -> (r: Vec<String>)
    ensures
        views(r@) == chars_views(parts@),
{
    let mut out: Vec<String> = Vec::new();
    let mut i: usize = 0;
    while i < parts.len()
        invariant
            i <= parts.len(),
            views(out@) == chars_views(parts@).take(i as int),
        decreases parts.len() - i,
    {
        let s = string_of(&parts[i]);
        let ghost before = views(out@);
        out.push(s);
        assert(views(out@) =~= before.push(s@));
        assert(chars_views(parts@).take(i + 1) =~= chars_views(parts@).take(i as int).push(parts@[i as int]@));
        i += 1;
    }
    assert(chars_views(parts@).take(i as int) =~= chars_views(parts@));
    out
}

fn links_of(pieces: &Vec<Vec<char>>) -> (r: Vec<u32>)
    ensures
        r@ == chars_views(pieces@).filter_map(|x: Seq<char>| parse_u32_spec(x)),
{
    let ghost pv = chars_views(pieces@);
    let mut out: Vec<u32> = Vec::new();
    let mut i: usize = 0;
    assert(pv.take(0) =~= Seq::<Seq<char>>::empty());
    while i < pieces.len()
        invariant
            i <= pieces.len(),
            pv == chars_views(pieces@),
            out@ == pv.take(i as int).filter_map(|x: Seq<char>| parse_u32_spec(x)),
        decreases pieces.len() - i,
    {
        assert(pv.take(i + 1).drop_last() =~= pv.take(i as int));
        assert(pv.take(i + 1).last() == pieces@[i as int]@);
        match parse_u32(&pieces[i]) {
            Some(v) => {
                out.push(v);
            },
            None => {},
        }
        i += 1;
    }
    assert(pv.take(i as int) =~= pv);
    out
}

/// Reads a header line into a note.
pub fn parse_header(line: &Vec<char>) -> (r: Note)
    ensures
        r@ == header_note(line@),
{
    let parts = split_n_chars(line, 11, ',');
    let ghost pv = chars_views(parts@);
    proof {
        crate::text::lemma_split_on_len(line@, ',');
    }
    assert(pv.len() >= 1);
    let id: u32 = match strip_prefix_chars(&parts[0], "Note ID:") {
        Some(r) => match parse_u32(&trim_chars(&r)) {
            Some(v) => v,
            None => 0,
        },
        None => 0,
    };
    let title: String = match field_of(&parts, 1, "Title:") {
        Some(t) => string_of(&trim_chars(&t)),
        None => String::new(),
    };
    let pinned: bool = match field_of(&parts, 2, "Pinned:") {
        Some(t) => {
            let tt = trim_chars(&t);
            crate::text::chars_eq(&tt, &chars_of("true"))
        },
        None => false,
    };
    let tags: Vec<String> = match field_of(&parts, 3, "Tags:") {
        Some(t) => strings_of(&split_chars(&trim_chars(&t), '|')),
        None => {
            let mut v: Vec<String> = Vec::new();
            v.push(crate::text::str_to_string("general"));
            assert(views(v@) =~= seq!["general"@]);
            v
        },
    };
    let color: NoteColor = match field_of(&parts, 4, "Color:") {
        Some(t) => {
            let s = string_of(&trim_chars(&t));
            NoteColor::from_str(s.as_str())
        },
        None => NoteColor::Default,
    };
    let created_at: u64 = match u64_field_of(&parts, 5, "CreatedAt:") {
        Some(v) => v,
        None => 0,
    };
    let updated_at: u64 = match u64_field_of(&parts, 6, "UpdatedAt:") {
        Some(v) => v,
        None => 0,
    };
    let password: Option<String> = match field_of(&parts, 7, "Password:") {
        Some(t) => {
            let tt = trim_chars(&t);
            if tt.len() > 0 {
                Some(string_of(&tt))
            } else {
                None
            }
        },
        None => None,
    };
    let reminder: Option<u64> = u64_field_of(&parts, 8, "Reminder:");
    let links: Vec<u32> = match field_of(&parts, 9, "Links:") {
        Some(t) => links_of(&split_chars(&trim_chars(&t), '|')),
        None => Vec::new(),
    };
    let r = Note {
        id,
        title,
        versions: Vec::new(),
        pinned,
        tags,
        color,
        created_at,
        updated_at,
        password,
        reminder,
        links,
    };
    assert(r@.versions =~= Seq::<VersionView>::empty());
    assert(r@.title =~= header_note(line@).title);
    assert(r@.links =~= header_note(line@).links);
    assert(r@ =~= header_note(line@));
    r
}

/// Reads the timestamp and content of a version line.
pub fn parse_version_fields(line: &Vec<char>) -> (r: (u64, String))
    ensures
        (r.0, r.1@) == version_fields(line@),
{
    let marker = chars_of(", CreatedAt:");
    if contains_chars(line, &marker) {
        let after = strip_all_prefix_chars(line, "Version ");
        let comma = find_or_len_chars(&after, ',');
        let rest = sub_chars(&after, comma, after.len());
        assert(rest@ =~= after@.skip(comma as int));
        match strip_prefix_chars(&rest, ", CreatedAt: ") {
            Some(stripped) => {
                let colon = find_or_len_chars(&stripped, ':');
                let ts_part = sub_chars(&stripped, 0, colon);
                assert(ts_part@ =~= stripped@.take(colon as int));
                let ts: u64 = match parse_u64(&trim_chars(&ts_part)) {
                    Some(v) => v,
                    None => 0,
                };
                let tail = sub_chars(&stripped, colon, stripped.len());
                assert(tail@ =~= stripped@.skip(colon as int));
                let content = trim_chars(&strip_all_prefix_chars(&tail, ":"));
                (ts, string_of(&content))
            },
            None => {
                let content = trim_chars(&strip_all_prefix_chars(&rest, ":"));
                (0, string_of(&content))
            },
        }
    } else {
        let ps = split_n_chars(line, 2, ':');
        if ps.len() > 1 {
            let content = trim_chars(&ps[1]);
            (0, string_of(&content))
        } else {
            (0, String::new())
        }
    }
}


/// Once reading fails, reading more lines does not recover.
proof fn lemma_load_fails_on(ls: Seq<Seq<char>>, k: int)
    requires
        0 <= k <= ls.len(),
        load_lines(ls.take(k)) is None,
    ensures
        load_lines(ls) is None,
    decreases ls.len() - k,
{
    if k == ls.len() {
        assert(ls.take(k) =~= ls);
    } else {
        assert(ls.take(k + 1).drop_last() =~= ls.take(k));
        lemma_load_fails_on(ls, k + 1);
    }
}

/// Reads saved text back into a note manager; `None` where reading would
/// push a number past the largest `u32` (a note id of 4294967295, say).
pub fn load_notes_from_text(text: &str) -> (r: Option<NoteManager>)
    ensures
        match r {
            Some(nm) => loaded(text@) == Some(nm@),
            None => loaded(text@) is None,
        },
{
    let cs = chars_of(text);
    let ls = split_lines(&cs);
    let ghost lv = chars_views(ls@);
    let note_prefix = chars_of("Note ID:");
    let version_prefix = chars_of("Version ");
    let mut nm = NoteManager::new();
    let mut i: usize = 0;
    assert(lv.take(0) =~= Seq::<Seq<char>>::empty());
    while i < ls.len()
        invariant
            i <= ls.len(),
            lv == chars_views(ls@),
            lv == lines(text@),
            note_prefix@ == "Note ID:"@,
            version_prefix@ == "Version "@,
            load_lines(lv.take(i as int)) == Some(nm@),
        decreases ls.len() - i,
    {
        let ghost m = nm@;
        let line = &ls[i];
        assert(lv.take(i + 1).drop_last() =~= lv.take(i as int));
        assert(lv.take(i + 1).last() == line@);
        if starts_with_chars(line, &note_prefix) {
            let n = parse_header(line);
            if nm.next_id == u32::MAX || n.id == u32::MAX {
                proof {
                    lemma_load_fails_on(lv, i + 1);
                }
                return None;
            }
            nm.next_id = nm.next_id + 1;
            if n.id >= nm.next_id {
                nm.next_id = n.id + 1;
            }
            nm.notes.push(n);
            assert(nm@ =~= load_line(m, line@)->0);
        } else if starts_with_chars(line, &version_prefix) && nm.notes.len() > 0 {
            let last = nm.notes.len() - 1;
            if nm.notes[last].versions.len() >= 0xffff_ffff {
                proof {
                    lemma_load_fails_on(lv, i + 1);
                }
                return None;
            }
            let (ts, content) = parse_version_fields(line);
            let vn = nm.notes[last].versions.len() as u32 + 1;
            let ghost before = nm@.notes[last as int];
            nm.notes[last].versions.push(Version::new_with_ts(vn, content, ts));
            if nm.notes[last].updated_at < ts {
                nm.notes[last].updated_at = ts;
            }
            assert(nm@.notes[last as int].versions =~= before.versions.push(
                VersionView { version_number: vn, content: content@, created_at: ts },
            ));
            assert(nm@ =~= load_line(m, line@)->0);
        } else {
            assert(load_line(m, line@) == Some(m));
        }
        i += 1;
    }
    assert(lv.take(i as int) =~= lv);
    Some(nm)
}

}
