//! The Markdown and plain-text renderings of a note that exporting writes.
use vstd::prelude::*;
use crate::note::{color_name, timestamp_text, Note, NoteView, VersionView, TZ_OFFSET_SECS};
use crate::text::{append_str, decimal, join, join_strings, push_decimal, word_count};

verus! {

broadcast use vstd::string::group_string_axioms;

/// Every timestamp of the note can be shown (none passes the largest `u64`
/// once moved to IST).
pub open spec fn times_showable(n: NoteView) -> bool {
    &&& n.created_at + TZ_OFFSET_SECS <= u64::MAX
    &&& n.updated_at + TZ_OFFSET_SECS <= u64::MAX
    &&& forall|i: int| 0 <= i < n.versions.len() ==> (#[trigger] n.versions[i]).created_at + TZ_OFFSET_SECS <= u64::MAX
}

pub open spec fn wiki_link(id: u32) -> Seq<char> {
    "[["@ + decimal(id as nat) + "]]"@
}

/// The Markdown header block: title, id, tags, colour, times, version count
/// and, when there are any, the linked notes.
pub open spec fn markdown_head(n: NoteView) -> Seq<char> {
    "# "@ + n.title + "\n\n"@ + "**ID:** "@ + decimal(n.id as nat) + "  \n"@ + "**Tags:** "@ + join(n.tags, ", "@)
        + "  \n"@ + "**Color:** "@ + color_name(n.color) + "  \n"@
}

pub open spec fn markdown_times(n: NoteView) -> Seq<char> {
    "**Created:** "@ + timestamp_text(n.created_at as nat) + "  \n"@ + "**Updated:** "@ + timestamp_text(
        n.updated_at as nat,
    ) + "  \n"@ + "**Versions:** "@ + decimal(n.versions.len()) + "  \n\n"@
}

pub open spec fn markdown_links(n: NoteView) -> Seq<char> {
    if n.links.len() > 0 {
        "**Linked Notes:** "@ + join(n.links.map_values(|l: u32| wiki_link(l)), ", "@) + "  \n\n"@
    } else {
        ""@
    }
}

pub open spec fn markdown_version(v: VersionView) -> Seq<char> {
    "## Version "@ + decimal(v.version_number as nat) + " _("@ + decimal(word_count(v.content)) + "words, "@
        + decimal(v.content.len()) + "chars, "@ + timestamp_text(v.created_at as nat) + ")_\n\n"@ + v.content
        + "\n\n"@
}

/// The Markdown text of a note with its whole version history.
pub open spec fn markdown_of(n: NoteView) -> Seq<char> {
    markdown_head(n) + markdown_times(n) + markdown_links(n) + "---\n\n"@ + crate::text::concat(
        n.versions.map_values(|v: VersionView| markdown_version(v)),
    )
}

pub open spec fn plain_head(n: NoteView) -> Seq<char> {
    "NOTE: "@ + n.title + "\n"@ + "ID: "@ + decimal(n.id as nat) + " | Tags: "@ + join(n.tags, ", "@)
        + " | Color: "@ + color_name(n.color) + " | Versions: "@ + decimal(n.versions.len())
}

pub open spec fn plain_times(n: NoteView) -> Seq<char> {
    " | Created: "@ + timestamp_text(n.created_at as nat) + " | Updated: "@ + timestamp_text(n.updated_at as nat)
        + "\n"@
}

pub open spec fn rule_line() -> Seq<char> {
    Seq::new(50, |i: int| '=')
}

pub open spec fn plain_version(v: VersionView) -> Seq<char> {
    "\nVersion "@ + decimal(v.version_number as nat) + " ("@ + decimal(word_count(v.content)) + " words, "@
        + decimal(v.content.len()) + " chars, "@ + timestamp_text(v.created_at as nat) + "):\n"@ + v.content
        + "\n"@
}

/// The plain-text rendering of a note with its whole version history.
pub open spec fn plain_text_of(n: NoteView) -> Seq<char> {
    plain_head(n) + plain_times(n) + rule_line() + "\n"@ + crate::text::concat(
        n.versions.map_values(|v: VersionView| plain_version(v)),
    )
}

fn push_markdown_head(out: &mut String, n: &Note)
    ensures
        final(out)@ == old(out)@ + markdown_head(n@),
{
    append_str(out, "# ");
    append_str(out, n.title.as_str());
    append_str(out, "\n\n");
    append_str(out, "**ID:** ");
    push_decimal(out, n.id as u64);
    append_str(out, "  \n");
    append_str(out, "**Tags:** ");
    let tags = join_strings(&n.tags, ", ");
    append_str(out, tags.as_str());
    append_str(out, "  \n");
    append_str(out, "**Color:** ");
    append_str(out, n.color.as_str());
    append_str(out, "  \n");
    assert(out@ =~= old(out)@ + markdown_head(n@));
}

fn push_markdown_times(out: &mut String, n: &Note)
    requires
        times_showable(n@),
    ensures
        final(out)@ == old(out)@ + markdown_times(n@),
{
    append_str(out, "**Created:** ");
    let c = crate::note::format_timestamp(n.created_at);
    append_str(out, c.as_str());
    append_str(out, "  \n");
    append_str(out, "**Updated:** ");
    let u = crate::note::format_timestamp(n.updated_at);
    append_str(out, u.as_str());
    append_str(out, "  \n");
    append_str(out, "**Versions:** ");
    push_decimal(out, n.versions.len() as u64);
    append_str(out, "  \n\n");
    assert(out@ =~= old(out)@ + markdown_times(n@));
}

fn push_markdown_links(out: &mut String, n: &Note)
    ensures
        final(out)@ == old(out)@ + markdown_links(n@),
{
    if n.links.len() == 0 {
        append_str(out, "");
        return;
    }
    append_str(out, "**Linked Notes:** ");
    let ghost ls = n@.links.map_values(|l: u32| wiki_link(l));
    let ghost start = out@;
    let mut i: usize = 0;
    assert(ls.take(0) =~= Seq::<Seq<char>>::empty());
    while i < n.links.len()
        invariant
            i <= n.links.len(),
            ls == n@.links.map_values(|l: u32| wiki_link(l)),
            out@ == start + join(ls.take(i as int), ", "@),
        decreases n.links.len() - i,
    {
        let ghost before = out@;
        if i > 0 {
            append_str(out, ", ");
        }
        append_str(out, "[[");
        push_decimal(out, n.links[i] as u64);
        append_str(out, "]]");
        assert(ls.take(i + 1).drop_last() =~= ls.take(i as int));
        assert(ls.take(i + 1).last() == wiki_link(n@.links[i as int]));
        assert(out@ =~= start + join(ls.take(i + 1), ", "@));
        i += 1;
    }
    assert(ls.take(i as int) =~= ls);
    append_str(out, "  \n\n");
    assert(out@ =~= old(out)@ + markdown_links(n@));
}

fn push_markdown_version(out: &mut String, n: &Note, i: usize)
    requires
        i < n.versions.len(),
        times_showable(n@),
    ensures
        final(out)@ == old(out)@ + markdown_version(n@.versions[i as int]),
{
    let v = &n.versions[i];
    assert(n@.versions[i as int].created_at + TZ_OFFSET_SECS <= u64::MAX);
    append_str(out, "## Version ");
    push_decimal(out, v.version_number as u64);
    append_str(out, " _(");
    push_decimal(out, v.word_count() as u64);
    append_str(out, "words, ");
    push_decimal(out, v.char_count() as u64);
    append_str(out, "chars, ");
    let t = crate::note::format_timestamp(v.created_at);
    append_str(out, t.as_str());
    append_str(out, ")_\n\n");
    append_str(out, v.content.as_str());
    append_str(out, "\n\n");
    assert(out@ =~= old(out)@ + markdown_version(n@.versions[i as int]));
}

/// The Markdown text that exporting a note writes.
pub fn markdown_text(note: &Note) -> (r: String)
    requires
        times_showable(note@),
    ensures
        r@ == markdown_of(note@),
{
    let mut out = String::new();
    push_markdown_head(&mut out, note);
    push_markdown_times(&mut out, note);
    push_markdown_links(&mut out, note);
    append_str(&mut out, "---\n\n");
    let ghost start = out@;
    let ghost vs = note@.versions.map_values(|v: VersionView| markdown_version(v));
    let mut i: usize = 0;
    assert(vs.take(0) =~= Seq::<Seq<char>>::empty());
    while i < note.versions.len()
        invariant
            i <= note.versions.len(),
            times_showable(note@),
            vs == note@.versions.map_values(|v: VersionView| markdown_version(v)),
            out@ == start + crate::text::concat(vs.take(i as int)),
        decreases note.versions.len() - i,
    {
        push_markdown_version(&mut out, note, i);
        assert(vs.take(i + 1).drop_last() =~= vs.take(i as int));
        assert(vs.take(i + 1).last() == markdown_version(note@.versions[i as int]));
        i += 1;
    }
    assert(vs.take(i as int) =~= vs);
    assert(out@ =~= markdown_of(note@));
    out
}

fn push_plain_head(out: &mut String, n: &Note)
    requires
        times_showable(n@),
    ensures
        final(out)@ == old(out)@ + plain_head(n@) + plain_times(n@),
{
    append_str(out, "NOTE: ");
    append_str(out, n.title.as_str());
    append_str(out, "\n");
    append_str(out, "ID: ");
    push_decimal(out, n.id as u64);
    append_str(out, " | Tags: ");
    let tags = join_strings(&n.tags, ", ");
    append_str(out, tags.as_str());
    append_str(out, " | Color: ");
    append_str(out, n.color.as_str());
    append_str(out, " | Versions: ");
    push_decimal(out, n.versions.len() as u64);
    let ghost mid = out@;
    assert(mid =~= old(out)@ + plain_head(n@));
    append_str(out, " | Created: ");
    let c = crate::note::format_timestamp(n.created_at);
    append_str(out, c.as_str());
    append_str(out, " | Updated: ");
    let u = crate::note::format_timestamp(n.updated_at);
    append_str(out, u.as_str());
    append_str(out, "\n");
    assert(out@ =~= mid + plain_times(n@));
}

fn push_plain_version(out: &mut String, n: &Note, i: usize)
    requires
        i < n.versions.len(),
        times_showable(n@),
    ensures
        final(out)@ == old(out)@ + plain_version(n@.versions[i as int]),
{
    let v = &n.versions[i];
    assert(n@.versions[i as int].created_at + TZ_OFFSET_SECS <= u64::MAX);
    append_str(out, "\nVersion ");
    push_decimal(out, v.version_number as u64);
    append_str(out, " (");
    push_decimal(out, v.word_count() as u64);
    append_str(out, " words, ");
    push_decimal(out, v.char_count() as u64);
    append_str(out, " chars, ");
    let t = crate::note::format_timestamp(v.created_at);
    append_str(out, t.as_str());
    append_str(out, "):\n");
    append_str(out, v.content.as_str());
    append_str(out, "\n");
    assert(out@ =~= old(out)@ + plain_version(n@.versions[i as int]));
}

/// The plain text that exporting a note writes.
pub fn plain_text(note: &Note) -> (r: String)
    requires
        times_showable(note@),
    ensures
        r@ == plain_text_of(note@),
{
    let mut out = String::new();
    push_plain_head(&mut out, note);
    let ghost head = out@;
    let mut k: usize = 0;
    while k < 50
        invariant
            k <= 50,
            out@ == head + Seq::new(k as nat, |i: int| '='),
        decreases 50 - k,
    {
        crate::text::push_char(&mut out, '=');
        assert(Seq::new((k + 1) as nat, |i: int| '=') =~= Seq::new(k as nat, |i: int| '=').push('='));
        k += 1;
    }
    append_str(&mut out, "\n");
    let ghost start = out@;
    let ghost vs = note@.versions.map_values(|v: VersionView| plain_version(v));
    let mut i: usize = 0;
    assert(vs.take(0) =~= Seq::<Seq<char>>::empty());
    while i < note.versions.len()
        invariant
            i <= note.versions.len(),
            times_showable(note@),
            vs == note@.versions.map_values(|v: VersionView| plain_version(v)),
            out@ == start + crate::text::concat(vs.take(i as int)),
        decreases note.versions.len() - i,
    {
        push_plain_version(&mut out, note, i);
        assert(vs.take(i + 1).drop_last() =~= vs.take(i as int));
        assert(vs.take(i + 1).last() == plain_version(note@.versions[i as int]));
        i += 1;
    }
    assert(vs.take(i as int) =~= vs);
    assert(out@ =~= plain_text_of(note@));
    out
}


/// Whether every timestamp of the note can be shown.
pub fn times_showable_check(note: &Note) -> (r: bool)
    ensures
        r == times_showable(note@),
{
    let limit: u64 = u64::MAX - TZ_OFFSET_SECS;
    if note.created_at > limit || note.updated_at > limit {
        return false;
    }
    let mut i: usize = 0;
    while i < note.versions.len()
        invariant
            i <= note.versions.len(),
            limit == u64::MAX - TZ_OFFSET_SECS,
            forall|j: int| 0 <= j < i ==> (#[trigger] note@.versions[j]).created_at + TZ_OFFSET_SECS <= u64::MAX,
        decreases note.versions.len() - i,
    {
        if note.versions[i].created_at > limit {
            assert(note@.versions[i as int].created_at + TZ_OFFSET_SECS > u64::MAX);
            return false;
        }
        i += 1;
    }
    true
}

}
