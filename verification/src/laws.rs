//! Properties that relate the operations of the note manager to each other.
use vstd::prelude::*;
use crate::manager::{
    rewritten_content, version_edit_applies, version_rewritten,
    adds_link, adds_tag, all_restored, created, due_at, locked, password_accepts, reminders_cleared,
    tag_added, tag_removed, tagged_all, untagged_all, version_deleted, deletes_version, with_note, other_than,
    not_numbered, renumbered, deleted, find_note, has_id, ids_increasing, lemma_reinsert, lemma_sort_by_id,
    lemma_sort_sorted, restored, sorted_by_id, undone, ManagerView,
};
use crate::note::{
    color_name, color_named, NoteColor,    has_number, with_edited_version, diff_lines, find_version, numbered_in_order, with_new_version, DiffLine, NoteView, VersionView,
};
use crate::persistence::{all_ws, lemma_color_text, lemma_trim_end_skip_ws, lemma_trim_start_skip_ws, lemma_trimmed_edges};
use crate::export::{markdown_head, markdown_links, markdown_of, markdown_times, markdown_version};
use crate::text::{
    concat, decimal, ascii_lower_char, is_ascii_text, is_ws, lemma_first_index_same, lemma_first_index_some, lowercase_of, trim, trim_start,
};

verus! {

pub open spec fn ids_below(s: Seq<NoteView>, bound: u32) -> bool {
    forall|i: int| 0 <= i < s.len() ==> (#[trigger] s[i]).id < bound
}

proof fn lemma_remove_keeps_increasing(s: Seq<NoteView>, pos: int)
    requires
        ids_increasing(s),
        0 <= pos < s.len(),
    ensures
        ids_increasing(s.remove(pos)),
        sorted_by_id(s.remove(pos)),
{
    let t = s.remove(pos);
    assert forall|i: int, j: int| 0 <= i < j < t.len() implies t[i].id < t[j].id by {
        let a = if i < pos { i } else { i + 1 };
        let b = if j < pos { j } else { j + 1 };
        assert(t[i] == s[a] && t[j] == s[b]);
    }
}

/// Undoing a delete gives back exactly the notes and the trash there were
/// before, when ids increase along the notes (as creating notes keeps them).
pub proof fn law_undo_after_delete(m: ManagerView, id: u32)
    requires
        ids_increasing(m.notes),
        find_note(m.notes, id) is Some,
    ensures
        undone(deleted(m, id)) == m,
{
    lemma_first_index_some(m.notes, has_id(id));
    let i = find_note(m.notes, id)->0;
    let d = deleted(m, id);
    lemma_remove_keeps_increasing(m.notes, i);
    lemma_sort_sorted(d.notes);
    assert(d.notes.push(m.notes[i]).drop_last() =~= d.notes);
    lemma_reinsert(m.notes, i);
    assert(d.trash.drop_last() =~= m.trash);
    assert(undone(d) =~= m);
}

/// Restoring a deleted note from the trash by its id gives back exactly the
/// notes and the trash there were before, when ids increase along the notes
/// and no other trashed note has that id.
pub proof fn law_restore_after_delete(m: ManagerView, id: u32)
    requires
        ids_increasing(m.notes),
        find_note(m.notes, id) is Some,
        find_note(m.trash, id) is None,
    ensures
        restored(deleted(m, id), id) == m,
{
    lemma_first_index_some(m.notes, has_id(id));
    let i = find_note(m.notes, id)->0;
    let d = deleted(m, id);
    assert(d.trash.drop_last() =~= m.trash);
    assert(find_note(d.trash, id) == Some(m.trash.len() as int));
    lemma_remove_keeps_increasing(m.notes, i);
    lemma_sort_sorted(d.notes);
    assert(d.notes.push(m.notes[i]).drop_last() =~= d.notes);
    lemma_reinsert(m.notes, i);
    assert(d.trash.remove(m.trash.len() as int) =~= m.trash);
    assert(restored(d, id) =~= m);
}

/// Bringing notes back from the trash leaves the notes sorted by id, with no
/// note lost or added.
pub proof fn law_restoring_sorts(m: ManagerView, id: u32)
    ensures
        m.trash.len() > 0 ==> sorted_by_id(undone(m).notes) && undone(m).notes.to_multiset()
            == m.notes.push(m.trash.last()).to_multiset(),
        find_note(m.trash, id) matches Some(i) ==> sorted_by_id(restored(m, id).notes) && restored(
            m,
            id,
        ).notes.to_multiset() == m.notes.push(m.trash[i]).to_multiset(),
        sorted_by_id(all_restored(m).notes),
        all_restored(m).notes.to_multiset() == (m.notes + m.trash).to_multiset(),
        all_restored(m).trash.len() == 0,
{
    if m.trash.len() > 0 {
        lemma_sort_by_id(m.notes.push(m.trash.last()));
    }
    if let Some(i) = find_note(m.trash, id) {
        lemma_sort_by_id(m.notes.push(m.trash[i]));
    }
    lemma_sort_by_id(m.notes + m.trash);
}

/// A new note gets the next id, which no note had, and ids keep increasing
/// along the notes and stay below the next id.
pub proof fn law_create_fresh_id(m: ManagerView, title: Seq<char>, ts: u64)
    requires
        ids_increasing(m.notes),
        ids_below(m.notes, m.next_id),
        m.next_id < u32::MAX,
    ensures
        created(m, title, ts).notes.last().id == m.next_id,
        find_note(m.notes, m.next_id) is None,
        ids_increasing(created(m, title, ts).notes),
        ids_below(created(m, title, ts).notes, created(m, title, ts).next_id),
{
    let c = created(m, title, ts);
    crate::text::lemma_first_index_none(m.notes, has_id(m.next_id));
    assert forall|i: int, j: int| 0 <= i < j < c.notes.len() implies c.notes[i].id < c.notes[j].id by {
        if j == m.notes.len() {
            assert(c.notes[i] == m.notes[i]);
        } else {
            assert(c.notes[i] == m.notes[i] && c.notes[j] == m.notes[j]);
        }
    }
    assert forall|i: int| 0 <= i < c.notes.len() implies (#[trigger] c.notes[i]).id < c.next_id by {
        if i < m.notes.len() {
            assert(c.notes[i] == m.notes[i]);
        }
    }
}


/// Changing a note without changing its id leaves every lookup by id as it was.
pub proof fn lemma_find_note_update(s: Seq<NoteView>, i: int, x: NoteView, id: u32)
    requires
        0 <= i < s.len(),
        x.id == s[i].id,
    ensures
        find_note(s.update(i, x), id) == find_note(s, id),
{
    lemma_first_index_same(s.update(i, x), s, has_id(id));
}

/// Adding a tag that a note already has changes nothing: adding twice is
/// adding once.
pub proof fn law_add_tag_idempotent(m: ManagerView, id: u32, tag: Seq<char>)
    ensures
        with_note(with_note(m, id, adds_tag(tag)), id, adds_tag(tag)) == with_note(m, id, adds_tag(tag)),
{
    if let Some(i) = find_note(m.notes, id) {
        lemma_first_index_some(m.notes, has_id(id));
        let once = with_note(m, id, adds_tag(tag));
        lemma_find_note_update(m.notes, i, tag_added(m.notes[i], tag), id);
        assert(once.notes[i].tags.contains(tag)) by {
            if !m.notes[i].tags.contains(tag) {
                assert(once.notes[i].tags[m.notes[i].tags.len() as int] == tag);
            }
        }
        assert(with_note(once, id, adds_tag(tag)) =~= once);
    }
}

/// After adding a tag to every note, every note has it; after removing it
/// from every note, none has it.
pub proof fn law_bulk_tags(m: ManagerView, tag: Seq<char>)
    ensures
        forall|i: int| 0 <= i < m.notes.len() ==> (#[trigger] tagged_all(m, tag).notes[i]).tags.contains(tag),
        forall|i: int| 0 <= i < m.notes.len() ==> !(#[trigger] untagged_all(m, tag).notes[i]).tags.contains(tag),
        tagged_all(m, tag).notes.len() == m.notes.len(),
        untagged_all(m, tag).notes.len() == m.notes.len(),
{
    assert forall|i: int| 0 <= i < m.notes.len() implies (#[trigger] tagged_all(m, tag).notes[i]).tags.contains(tag) by {
        if !m.notes[i].tags.contains(tag) {
            assert(tagged_all(m, tag).notes[i].tags[m.notes[i].tags.len() as int] == tag);
        }
    }
    assert forall|i: int| 0 <= i < m.notes.len() implies !(#[trigger] untagged_all(m, tag).notes[i]).tags.contains(tag) by {
        let f = m.notes[i].tags.filter(other_than(tag));
        if f.contains(tag) {
            let k = choose|k: int| 0 <= k < f.len() && f[k] == tag;
            m.notes[i].tags.lemma_filter_pred(other_than(tag), k);
        }
    }
}

/// A password, once set, opens the note and no other attempt does; once
/// removed, any attempt opens it.
pub proof fn law_password(m: ManagerView, id: u32, password: Seq<char>, attempt: Seq<char>)
    requires
        find_note(m.notes, id) is Some,
    ensures
        password_accepts(with_note(m, id, locked(Some(password))), id, password),
        attempt != password ==> !password_accepts(with_note(m, id, locked(Some(password))), id, attempt),
        password_accepts(with_note(m, id, locked(None)), id, attempt),
{
    lemma_first_index_some(m.notes, has_id(id));
    let i = find_note(m.notes, id)->0;
    lemma_find_note_update(m.notes, i, (locked(Some(password)))(m.notes[i]), id);
    lemma_find_note_update(m.notes, i, (locked(None))(m.notes[i]), id);
}

/// Linking is one way: only the note linked from changes; in particular the
/// note linked to keeps its own links.
pub proof fn law_link_one_way(m: ManagerView, from_id: u32, to_id: u32, k: int)
    requires
        0 <= k < m.notes.len(),
        m.notes[k].id != from_id,
    ensures
        with_note(m, from_id, adds_link(to_id)).notes[k] == m.notes[k],
        with_note(m, from_id, adds_link(to_id)).notes.len() == m.notes.len(),
{
    lemma_first_index_some(m.notes, has_id(from_id));
}

/// Deleting a version renumbers the rest 1, 2, ...; when the versions were
/// numbered that way, exactly one goes and at least one stays.
pub proof fn law_delete_version_renumbers(m: ManagerView, id: u32, vn: u32, now: u64)
    requires
        deletes_version(m, id, vn),
        m.notes[find_note(m.notes, id)->0].versions.len() < u32::MAX,
    ensures
        ({
            let i = find_note(m.notes, id)->0;
            let after = version_deleted(m, id, vn, now).notes[i].versions;
            &&& numbered_in_order(after)
            &&& numbered_in_order(m.notes[i].versions) ==> after.len() == m.notes[i].versions.len() - 1
                && after.len() >= 1
        }),
{
    reveal(Seq::filter);
    lemma_first_index_some(m.notes, has_id(id));
    let i = find_note(m.notes, id)->0;
    let vs = m.notes[i].versions;
    let after = version_deleted(m, id, vn, now).notes[i].versions;
    assert(after == renumbered(vs.filter(not_numbered(vn))));
    assert(forall|j: int| 0 <= j < after.len() ==> (#[trigger] after[j]).version_number == j + 1) by {
        assert forall|j: int| 0 <= j < after.len() implies (#[trigger] after[j]).version_number == j + 1 by {
            assert(vs.filter(not_numbered(vn)).len() < vs.len());
            vs.lemma_filter_len(not_numbered(vn));
        }
    }
    if numbered_in_order(vs) {
        lemma_filter_drops_one(vs, vn);
    }
}

/// With versions numbered 1, 2, ..., at most one carries a given number.
proof fn lemma_filter_drops_one(vs: Seq<VersionView>, vn: u32)
    requires
        numbered_in_order(vs),
    ensures
        vs.filter(not_numbered(vn)).len() >= vs.len() - 1,
    decreases vs.len(),
{
    reveal(Seq::filter);
    if vs.len() > 0 {
        let d = vs.drop_last();
        assert(numbered_in_order(d)) by {
            assert forall|i: int| 0 <= i < d.len() implies (#[trigger] d[i]).version_number == i + 1 by {
                assert(d[i] == vs[i]);
            }
        }
        lemma_filter_drops_one(d, vn);
        if vs.last().version_number == vn {
            // every earlier version has a smaller number, so none was dropped
            assert(forall|i: int| 0 <= i < d.len() ==> (#[trigger] d[i]).version_number != vn);
            lemma_filter_keeps_all(d, vn);
        }
    }
}

proof fn lemma_filter_keeps_all(vs: Seq<VersionView>, vn: u32)
    requires
        forall|i: int| 0 <= i < vs.len() ==> (#[trigger] vs[i]).version_number != vn,
    ensures
        vs.filter(not_numbered(vn)) == vs,
    decreases vs.len(),
{
    reveal(Seq::filter);
    if vs.len() > 0 {
        let d = vs.drop_last();
        assert(forall|i: int| 0 <= i < d.len() ==> d[i] == vs[i]);
        lemma_filter_keeps_all(d, vn);
        assert(d.push(vs.last()) =~= vs);
    }
}

/// Adding a version loses nothing: the earlier versions stay as they were,
/// the new one comes last with the given content, and it is numbered one
/// past the last, so numbering 1, 2, ... is kept.
pub proof fn law_add_version_numbering(n: NoteView, content: Seq<char>, version_ts: u64, now: u64)
    requires
        numbered_in_order(n.versions),
        n.versions.len() < u32::MAX,
    ensures
        numbered_in_order(with_new_version(n, content, version_ts, now).versions),
        with_new_version(n, content, version_ts, now).versions.len() == n.versions.len() + 1,
        with_new_version(n, content, version_ts, now).versions.take(n.versions.len() as int) == n.versions,
        with_new_version(n, content, version_ts, now).versions.last().content == content,
{
    assert(with_new_version(n, content, version_ts, now).versions.take(n.versions.len() as int) =~= n.versions);
    let vs = with_new_version(n, content, version_ts, now).versions;
    assert forall|i: int| 0 <= i < vs.len() implies (#[trigger] vs[i]).version_number == i + 1 by {
        if i < n.versions.len() {
            assert(vs[i] == n.versions[i]);
        }
    }
}

/// Comparing a version's lines with themselves shows every line unchanged.
pub proof fn law_diff_with_itself(lines: Seq<Seq<char>>)
    ensures
        diff_lines(lines, lines).len() == lines.len(),
        forall|i: int| 0 <= i < lines.len() ==> #[trigger] diff_lines(lines, lines)[i] == DiffLine::Same(lines[i]),
{
}

/// A filter that no element passes is empty.
proof fn lemma_filter_none<T>(s: Seq<T>, p: spec_fn(T) -> bool)
    requires
        forall|k: int| 0 <= k < s.len() ==> !p(#[trigger] s[k]),
    ensures
        s.filter(p).len() == 0,
    decreases s.len(),
{
    reveal(Seq::filter);
    if s.len() > 0 {
        assert(forall|k: int| 0 <= k < s.len() - 1 ==> s.drop_last()[k] == s[k]);
        lemma_filter_none(s.drop_last(), p);
    }
}

/// Once the due reminders are cleared, no reminder is due at that time.
pub proof fn law_cleared_reminders_not_due(m: ManagerView, now: u64)
    ensures
        reminders_cleared(m, now).notes.filter(due_at(now)).len() == 0,
{
    let ns = reminders_cleared(m, now).notes;
    assert forall|k: int| 0 <= k < ns.len() implies !(due_at(now))(#[trigger] ns[k]) by {}
    lemma_filter_none(ns, due_at(now));
}

/// Editing a version and reading it back gives what the edit wrote: the
/// entered lines, after the old content and a line feed when appending.
/// The note and the version are still found where they were, the version
/// keeps its number, and every other version of every note stays as it was.
pub proof fn law_version_edit_then_read(
    m: ManagerView,
    id: u32,
    vn: u32,
    choice: Seq<char>,
    lines: Seq<String>,
    version_ts: u64,
    now: u64,
)
    requires
        version_edit_applies(m, id, vn, lines),
    ensures
        ({
            let e = version_rewritten(m, id, vn, choice, lines, version_ts, now);
            let i = find_note(m.notes, id)->0;
            let j = find_version(m.notes[i].versions, vn)->0;
            &&& find_note(e.notes, id) == Some(i)
            &&& find_version(e.notes[i].versions, vn) == Some(j)
            &&& e.notes[i].versions[j].content == rewritten_content(m.notes[i].versions[j].content, choice, lines)
            &&& e.notes[i].versions[j].version_number == vn
            &&& e.notes.len() == m.notes.len()
            &&& forall|k: int| 0 <= k < m.notes.len() && k != i ==> #[trigger] e.notes[k] == m.notes[k]
            &&& e.notes[i].versions.len() == m.notes[i].versions.len()
            &&& forall|k: int|
                0 <= k < m.notes[i].versions.len() && k != j ==> #[trigger] e.notes[i].versions[k]
                    == m.notes[i].versions[k]
        }),
{
    let i = find_note(m.notes, id)->0;
    lemma_first_index_some(m.notes, has_id(id));
    let n = m.notes[i];
    let j = find_version(n.versions, vn)->0;
    lemma_first_index_some(n.versions, has_number(vn));
    let c = rewritten_content(n.versions[j].content, choice, lines);
    let en = with_edited_version(n, vn, c, version_ts, now);
    lemma_find_note_update(m.notes, i, en, id);
    let nv = VersionView { version_number: n.versions[j].version_number, content: c, created_at: version_ts };
    lemma_first_index_same(n.versions.update(j, nv), n.versions, has_number(vn));
}

/// Naming a colour and reading the name back gives the colour, whatever
/// whitespace surrounds the name and whatever the case of its letters: the
/// colour parser undoes the colour's name.
pub proof fn law_color_name_round_trip(c: NoteColor, s: Seq<char>, w1: Seq<char>, w2: Seq<char>)
    requires
        all_ws(w1),
        all_ws(w2),
        is_ascii_text(s),
        s.map_values(|ch: char| ascii_lower_char(ch)) == color_name(c),
    ensures
        color_named(lowercase_of(trim(color_name(c)))) == c,
        color_named(lowercase_of(trim(w1 + s + w2))) == c,
{
    lemma_color_text(c);
    let t = color_name(c);
    lemma_trimmed_edges(t);
    assert(s.len() == t.len());
    assert(ascii_lower_char(s[0]) == t[0]);
    assert(ascii_lower_char(s[s.len() - 1]) == t[t.len() - 1]);
    assert(!is_ws(s[0]) && !is_ws(s.last()));
    lemma_trimmed_edges(s);
    assert(w1 + s + w2 =~= w1 + (s + w2));
    lemma_trim_start_skip_ws(w1, s + w2);
    assert((s + w2)[0] == s[0]);
    assert(trim_start(s + w2) == s + w2);
    lemma_trim_end_skip_ws(s, w2);
    assert(trim(s) == s);
    assert(trim_start(s) == s);
    assert(crate::text::trim_end(s) == s);
    assert(trim(w1 + s + w2) == s);
}

/// Removing a tag from a note drops exactly the copies of that tag: every
/// other tag stays as often as it was there, in the same order, and nothing
/// else of the note changes.
pub proof fn law_remove_tag_keeps_others(n: NoteView, tag: Seq<char>)
    ensures
        ({
            let r = tag_removed(n, tag);
            &&& forall|t: Seq<char>| #[trigger] r.tags.to_multiset().count(t) == if t == tag {
                0
            } else {
                n.tags.to_multiset().count(t)
            }
            &&& forall|i: int| 0 <= i < n.tags.len() && n.tags[i] != tag ==> r.tags.contains(#[trigger] n.tags[i])
            &&& !r.tags.contains(tag)
            &&& r == (NoteView { tags: r.tags, ..n })
        }),
{
    lemma_filter_out_counts(n.tags, tag);
    broadcast use vstd::seq_lib::group_to_multiset_ensures;
    let r = tag_removed(n, tag);
    assert forall|i: int| 0 <= i < n.tags.len() && n.tags[i] != tag implies r.tags.contains(#[trigger] n.tags[i]) by {
        assert(n.tags.contains(n.tags[i]));
        assert(n.tags.to_multiset().count(n.tags[i]) > 0);
        assert(r.tags.to_multiset().count(n.tags[i]) > 0);
    }
    assert(r.tags.to_multiset().count(tag) == 0);
}

proof fn lemma_filter_out_counts(s: Seq<Seq<char>>, x: Seq<char>)
    ensures
        forall|t: Seq<char>| #[trigger] s.filter(other_than(x)).to_multiset().count(t) == if t == x {
            0
        } else {
            s.to_multiset().count(t)
        },
    decreases s.len(),
{
    broadcast use vstd::seq_lib::group_to_multiset_ensures;
    broadcast use vstd::multiset::group_multiset_axioms;
    reveal(Seq::filter);
    if s.len() > 0 {
        let d = s.drop_last();
        lemma_filter_out_counts(d, x);
        assert(d.push(s.last()) =~= s);
        assert(s.filter(other_than(x)) == if (other_than(x))(s.last()) {
            d.filter(other_than(x)).push(s.last())
        } else {
            d.filter(other_than(x))
        });
    } else {
        assert(s.filter(other_than(x)) =~= Seq::<Seq<char>>::empty());
    }
}

/// Removing a tag works tag by tag, in order: removing it from two runs of
/// tags one after the other gives the two results one after the other, and
/// a single tag goes exactly when it is the removed one.
pub proof fn law_remove_tag_in_order(n: NoteView, a: Seq<Seq<char>>, b: Seq<Seq<char>>, t: Seq<char>, tag: Seq<char>)
    ensures
        tag_removed(NoteView { tags: a + b, ..n }, tag).tags == tag_removed(NoteView { tags: a, ..n }, tag).tags
            + tag_removed(NoteView { tags: b, ..n }, tag).tags,
        tag_removed(NoteView { tags: seq![t], ..n }, tag).tags == if t == tag {
            Seq::<Seq<char>>::empty()
        } else {
            seq![t]
        },
{
    Seq::filter_distributes_over_add(a, b, other_than(tag));
    reveal(Seq::filter);
    let one = seq![t];
    assert(one.drop_last() =~= Seq::<Seq<char>>::empty());
    assert(Seq::<Seq<char>>::empty().filter(other_than(tag)) =~= Seq::<Seq<char>>::empty());
    assert(one.filter(other_than(tag)) =~= if t == tag { Seq::<Seq<char>>::empty() } else { seq![t] });
}

/// Comparing two versions goes line by line: a line equal at the same
/// position is shown unchanged and an unequal one as changed, whatever the
/// lines before it; the lines that only the longer version has are shown as
/// removed (the first version's) or added (the second's).
pub proof fn law_diff_by_position(a: Seq<Seq<char>>, b: Seq<Seq<char>>)
    ensures
        diff_lines(a, b).len() == if a.len() >= b.len() { a.len() } else { b.len() },
        forall|i: int| 0 <= i < a.len() && i < b.len() && a[i] == b[i] ==> #[trigger] diff_lines(a, b)[i] == DiffLine::Same(a[i]),
        forall|i: int| 0 <= i < a.len() && i < b.len() && a[i] != b[i] ==> #[trigger] diff_lines(a, b)[i] == DiffLine::Changed(a[i], b[i]),
        forall|i: int| b.len() <= i < a.len() ==> #[trigger] diff_lines(a, b)[i] == DiffLine::Removed(a[i]),
        forall|i: int| a.len() <= i < b.len() ==> #[trigger] diff_lines(a, b)[i] == DiffLine::Added(b[i]),
{
}

/// A note's Markdown export holds its whole version history: after the
/// header block, which ends with a `---` rule, comes one section per
/// version, in order; each section opens with `## Version ` and the
/// version's number, and ends with the version's content and a blank line.
pub proof fn law_markdown_has_every_version(n: NoteView)
    ensures
        markdown_of(n) == markdown_head(n) + markdown_times(n) + markdown_links(n) + "---\n\n"@ + concat(
            n.versions.map_values(|v: VersionView| markdown_version(v)),
        ),
        n.versions.map_values(|v: VersionView| markdown_version(v)).len() == n.versions.len(),
        forall|k: int|
            0 <= k < n.versions.len() ==> {
                let sec = #[trigger] markdown_version(n.versions[k]);
                let h = "## Version "@ + decimal(n.versions[k].version_number as nat);
                let t = n.versions[k].content + "\n\n"@;
                &&& sec.len() >= h.len() + t.len()
                &&& sec.subrange(0, h.len() as int) == h
                &&& sec.subrange(sec.len() - t.len(), sec.len() as int) == t
            },
{
    assert forall|k: int| 0 <= k < n.versions.len() implies {
        let sec = #[trigger] markdown_version(n.versions[k]);
        let h = "## Version "@ + decimal(n.versions[k].version_number as nat);
        let t = n.versions[k].content + "\n\n"@;
        &&& sec.len() >= h.len() + t.len()
        &&& sec.subrange(0, h.len() as int) == h
        &&& sec.subrange(sec.len() - t.len(), sec.len() as int) == t
    } by {
        let v = n.versions[k];
        let sec = markdown_version(v);
        let h = "## Version "@ + decimal(v.version_number as nat);
        let t = v.content + "\n\n"@;
        let mid = " _("@ + decimal(crate::text::word_count(v.content)) + "words, "@ + decimal(v.content.len())
            + "chars, "@ + crate::note::timestamp_text(v.created_at as nat) + ")_\n\n"@;
        assert(sec =~= h + mid + t);
        assert(sec.subrange(0, h.len() as int) =~= h);
        assert(sec.subrange(sec.len() - t.len(), sec.len() as int) =~= t);
    }
}

}
