//! Text layout for the terminal: boxed rows and the note cards of the
//! listing.
use vstd::prelude::*;
use crate::note::{ansi_code, color_name, Note, NoteView, VersionView};
use crate::text::{append_str, chars_of, decimal, join, join_strings, push_char, push_decimal, word_count};

verus! {

broadcast use vstd::string::group_string_axioms;

/// `s` padded on the right with spaces to `width` characters.
pub open spec fn pad_right(s: Seq<char>, width: nat) -> Seq<char> {
    if s.len() >= width {
        s
    } else {
        s + Seq::new((width - s.len()) as nat, |i: int| ' ')
    }
}

pub open spec fn repeated(c: char, n: nat) -> Seq<char> {
    Seq::new(n, |i: int| c)
}

fn push_repeated(out: &mut String, c: char, n: usize)
    ensures
        final(out)@ == old(out)@ + repeated(c, n as nat),
{
    let mut k: usize = 0;
    while k < n
        invariant
            k <= n,
            out@ == old(out)@ + repeated(c, k as nat),
        decreases n - k,
    {
        push_char(out, c);
        assert(repeated(c, (k + 1) as nat) =~= repeated(c, k as nat).push(c));
        assert(out@ =~= old(out)@ + repeated(c, (k + 1) as nat));
        k += 1;
    }
}

/// A row of a box: `content` left-aligned in `width` characters between bars.
pub fn box_row(width: usize, content: &str, color: &str) -> (r: String)
    ensures
        r@ == color@ + "  │ "@ + pad_right(content@, width as nat) + " │\x1b[0m"@,
{
    let mut out = String::new();
    append_str(&mut out, color);
    append_str(&mut out, "  │ ");
    append_str(&mut out, content);
    let n = chars_of(content).len();
    let ghost mid = out@;
    assert(mid =~= color@ + "  │ "@ + content@);
    if n < width {
        push_repeated(&mut out, ' ', width - n);
        assert(out@ =~= color@ + "  │ "@ + pad_right(content@, width as nat));
    } else {
        assert(out@ =~= color@ + "  │ "@ + pad_right(content@, width as nat));
    }
    append_str(&mut out, " │\x1b[0m");
    assert(out@ =~= color@ + "  │ "@ + pad_right(content@, width as nat) + " │\x1b[0m"@);
    out
}

/// A separator line of a box `width` characters wide inside.
pub fn box_separator(width: usize) -> (r: String)
    requires
        width + 2 <= usize::MAX,
    ensures
        r@ == "  ├"@ + repeated('─', (width + 2) as nat) + "┤"@,
{
    let mut out = String::new();
    append_str(&mut out, "  ├");
    push_repeated(&mut out, '─', width + 2);
    append_str(&mut out, "┤");
    out
}

// ---------------------------------------------------------------------------
// Note cards
// ---------------------------------------------------------------------------

/// How `{:?}` shows a list of note ids: "[1, 2]".
pub open spec fn links_debug(links: Seq<u32>) -> Seq<char> {
    "["@ + join(links.map_values(|l: u32| decimal(l as nat)), ", "@) + "]"@
}

pub open spec fn card_title_line(n: NoteView, due: bool) -> Seq<char> {
    ansi_code(n.color) + "  ┌─ "@ + (if n.pinned { "\x1b[38;5;214mPINNED\x1b[0m "@ } else { "  "@ }) + "Note #"@
        + decimal(n.id as nat) + " ─ "@ + n.title + (if due { " 🔔"@ } else { ""@ }) + "\n"@
}

pub open spec fn card_version_line(n: NoteView, v: VersionView, current: bool) -> Seq<char> {
    ansi_code(n.color) + "  │   v"@ + decimal(v.version_number as nat) + ": "@ + v.content + "  \x1b[2m["@
        + decimal(word_count(v.content)) + " words]\x1b[0m"@ + (if current {
        " \x1b[1;32m[current]\x1b[0m"@
    } else {
        ""@
    }) + ansi_code(n.color) + "\n"@
}

/// The version lines of a card, latest first; the latest is marked current.
pub open spec fn card_versions(n: NoteView) -> Seq<char> {
    if n.versions.len() == 0 {
        ansi_code(n.color) + "  │   (no versions yet)"@ + "\x1b[0m"@ + "\n"@
    } else {
        crate::text::concat(
            Seq::new(
                n.versions.len(),
                |k: int| card_version_line(n, n.versions[n.versions.len() - 1 - k], k == 0),
            ),
        )
    }
}

pub open spec fn card_footer(n: NoteView) -> Seq<char> {
    ansi_code(n.color) + "  │   #"@ + join(n.tags, ", #"@) + "  |  color: "@ + color_name(n.color)
        + "  |  links: "@ + links_debug(n.links) + "\n"@ + ansi_code(n.color)
        + "  └───────────────────────────"@ + "\x1b[0m"@ + "\n"@ + "\n"@
}

/// The card that the listing shows for a note.
pub open spec fn card_text(n: NoteView, due: bool) -> Seq<char> {
    card_title_line(n, due) + card_versions(n) + card_footer(n)
}

fn push_links_debug(out: &mut String, links: &Vec<u32>)
    ensures
        final(out)@ == old(out)@ + links_debug(links@),
{
    append_str(out, "[");
    let ghost ls = links@.map_values(|l: u32| decimal(l as nat));
    let ghost start = out@;
    let mut i: usize = 0;
    assert(ls.take(0) =~= Seq::<Seq<char>>::empty());
    while i < links.len()
        invariant
            i <= links.len(),
            ls == links@.map_values(|l: u32| decimal(l as nat)),
            out@ == start + join(ls.take(i as int), ", "@),
        decreases links.len() - i,
    {
        if i > 0 {
            append_str(out, ", ");
        }
        push_decimal(out, links[i] as u64);
        assert(ls.take(i + 1).drop_last() =~= ls.take(i as int));
        assert(ls.take(i + 1).last() == decimal(links@[i as int] as nat));
        assert(out@ =~= start + join(ls.take(i + 1), ", "@));
        i += 1;
    }
    assert(ls.take(i as int) =~= ls);
    append_str(out, "]");
    assert(out@ =~= old(out)@ + links_debug(links@));
}

fn push_title_line(out: &mut String, n: &Note, due: bool)
    ensures
        final(out)@ == old(out)@ + card_title_line(n@, due),
{
    append_str(out, n.color.to_ansi());
    append_str(out, "  ┌─ ");
    append_str(out, if n.pinned { "\x1b[38;5;214mPINNED\x1b[0m " } else { "  " });
    append_str(out, "Note #");
    push_decimal(out, n.id as u64);
    append_str(out, " ─ ");
    append_str(out, n.title.as_str());
    append_str(out, if due { " 🔔" } else { "" });
    append_str(out, "\n");
    assert(out@ =~= old(out)@ + card_title_line(n@, due));
}

fn push_version_line(out: &mut String, n: &Note, j: usize, current: bool)
    requires
        j < n.versions.len(),
    ensures
        final(out)@ == old(out)@ + card_version_line(n@, n@.versions[j as int], current),
{
    let v = &n.versions[j];
    let ghost vv = n@.versions[j as int];
    append_str(out, n.color.to_ansi());
    append_str(out, "  │   v");
    push_decimal(out, v.version_number as u64);
    append_str(out, ": ");
    append_str(out, v.content.as_str());
    let ghost a = out@;
    assert(a =~= old(out)@ + ansi_code(n@.color) + "  │   v"@ + decimal(vv.version_number as nat) + ": "@ + vv.content);
    append_str(out, "  \x1b[2m[");
    push_decimal(out, v.word_count() as u64);
    append_str(out, " words]\x1b[0m");
    let ghost b = out@;
    assert(b =~= a + "  \x1b[2m["@ + decimal(word_count(vv.content)) + " words]\x1b[0m"@);
    append_str(out, if current { " \x1b[1;32m[current]\x1b[0m" } else { "" });
    append_str(out, n.color.to_ansi());
    append_str(out, "\n");
    assert(out@ =~= old(out)@ + card_version_line(n@, n@.versions[j as int], current));
}

fn push_footer(out: &mut String, n: &Note)
    ensures
        final(out)@ == old(out)@ + card_footer(n@),
{
    append_str(out, n.color.to_ansi());
    append_str(out, "  │   #");
    let tags = join_strings(&n.tags, ", #");
    append_str(out, tags.as_str());
    append_str(out, "  |  color: ");
    append_str(out, n.color.as_str());
    append_str(out, "  |  links: ");
    let ghost mid = out@;
    push_links_debug(out, &n.links);
    append_str(out, "\n");
    append_str(out, n.color.to_ansi());
    append_str(out, "  └───────────────────────────");
    append_str(out, "\x1b[0m");
    append_str(out, "\n");
    append_str(out, "\n");
    assert(out@ =~= old(out)@ + card_footer(n@));
}

/// The card that the listing shows for `note`; `due` marks a due reminder.
pub fn note_card(note: &Note, due: bool) -> (r: String)
    ensures
        r@ == card_text(note@, due),
{
    let mut out = String::new();
    push_title_line(&mut out, note, due);
    let ghost start = out@;
    let len = note.versions.len();
    if len == 0 {
        append_str(&mut out, note.color.to_ansi());
        append_str(&mut out, "  │   (no versions yet)");
        append_str(&mut out, "\x1b[0m");
        append_str(&mut out, "\n");
    } else {
        let ghost lines = Seq::new(
            note@.versions.len(),
            |k: int| card_version_line(note@, note@.versions[note@.versions.len() - 1 - k], k == 0),
        );
        let mut k: usize = 0;
        assert(lines.take(0) =~= Seq::<Seq<char>>::empty());
        while k < len
            invariant
                k <= len == note.versions.len(),
                lines == Seq::new(
                    note@.versions.len(),
                    |k: int| card_version_line(note@, note@.versions[note@.versions.len() - 1 - k], k == 0),
                ),
                out@ == start + crate::text::concat(lines.take(k as int)),
            decreases len - k,
        {
            push_version_line(&mut out, note, len - 1 - k, k == 0);
            assert(lines.take(k + 1).drop_last() =~= lines.take(k as int));
            assert(lines.take(k + 1).last() == lines[k as int]);
            k += 1;
        }
        assert(lines.take(k as int) =~= lines);
    }
    let ghost mid = out@;
    assert(mid =~= start + card_versions(note@));
    push_footer(&mut out, note);
    assert(out@ =~= card_text(note@, due));
    out
}

/// The lines that show a note's versions, latest first; the latest is
/// marked current.
pub fn version_lines(note: &Note) -> (r: Vec<String>)
    requires
        forall|i: int| 0 <= i < note@.versions.len() ==> (#[trigger] note@.versions[i]).created_at
            + crate::note::TZ_OFFSET_SECS <= u64::MAX,
    ensures
        r@.len() == note@.versions.len(),
        forall|k: int| 0 <= k < r@.len() ==> (#[trigger] r@[k])@ == crate::note::version_line(
            note@.versions[note@.versions.len() - 1 - k],
            k == 0,
        ),
{
    let len = note.versions.len();
    let mut out: Vec<String> = Vec::new();
    let mut k: usize = 0;
    while k < len
        invariant
            k <= len == note.versions.len(),
            forall|i: int| 0 <= i < note@.versions.len() ==> (#[trigger] note@.versions[i]).created_at
                + crate::note::TZ_OFFSET_SECS <= u64::MAX,
            out@.len() == k,
            forall|j: int| 0 <= j < k ==> (#[trigger] out@[j])@ == crate::note::version_line(
                note@.versions[note@.versions.len() - 1 - j],
                j == 0,
            ),
        decreases len - k,
    {
        assert(note@.versions[len - 1 - k].created_at + crate::note::TZ_OFFSET_SECS <= u64::MAX);
        let line = note.versions[len - 1 - k].display_line(k == 0);
        out.push(line);
        k += 1;
    }
    out
}

}
