//! The collection of notes, the trash bin, and every operation on them.
use vstd::prelude::*;
use crate::note::{
    fresh_note, reminder_due, with_new_version, with_edited_version, find_version, Note, NoteColor, NoteView,
    Version, VersionView,
};
use crate::text::{
    append_str, chars_of, count_words, first_index, join_strings, lemma_first_index_prefix, lemma_first_index_some,
    lemma_first_index_step, split_lines, str_eq, views,
};

verus! {

pub struct NoteManager {
    pub notes: Vec<Note>,
    pub next_id: u32,
    pub autosave: bool,
    /// Deleted notes, the most recently deleted last.
    pub trash: Vec<Note>,
}

#[verifier::ext_equal]
pub struct ManagerView {
    pub notes: Seq<NoteView>,
    pub trash: Seq<NoteView>,
    pub next_id: u32,
    pub autosave: bool,
}

pub open spec fn note_views(ns: Seq<Note>) -> Seq<NoteView> {
    ns.map_values(|n: Note| n@)
}

impl View for NoteManager {
    type V = ManagerView;

    open spec fn view(&self) -> ManagerView {
        ManagerView {
            notes: note_views(self.notes@),
            trash: note_views(self.trash@),
            next_id: self.next_id,
            autosave: self.autosave,
        }
    }
}

// ---------------------------------------------------------------------------
// Looking notes up by id
// ---------------------------------------------------------------------------

pub open spec fn has_id(id: u32) -> spec_fn(NoteView) -> bool {
    |n: NoteView| n.id == id
}

/// The position of the first note with the given id.
pub open spec fn find_note(ns: Seq<NoteView>, id: u32) -> Option<int> {
    first_index(ns, has_id(id))
}

/// The position of the first note of `ns` with id `id`.
fn position_of(ns: &Vec<Note>, id: u32) -> (r: Option<usize>)
    ensures
        match r {
            Some(i) => find_note(note_views(ns@), id) == Some(i as int) && i < ns.len(),
            None => find_note(note_views(ns@), id) is None,
        },
{
    let ghost vs = note_views(ns@);
    let mut i: usize = 0;
    while i < ns.len()
        invariant
            i <= ns.len(),
            vs == note_views(ns@),
            find_note(vs.take(i as int), id) is None,
        decreases ns.len() - i,
    {
        proof {
            lemma_first_index_step(vs, has_id(id), i as int);
        }
        if ns[i].id == id {
            proof {
                lemma_first_index_prefix(vs, has_id(id), i + 1);
            }
            return Some(i);
        }
        i += 1;
    }
    proof {
        lemma_first_index_prefix(vs, has_id(id), i as int);
    }
    None
}

// ---------------------------------------------------------------------------
// Ordering by id
// ---------------------------------------------------------------------------

/// Where a note with id `id` goes in `s` so that it follows every note whose
/// id is not greater: after the last such note, scanning from the back.
pub open spec fn insertion_point(s: Seq<NoteView>, id: u32) -> int
    decreases s.len(),
{
    if s.len() == 0 {
        0
    } else if s.last().id <= id {
        s.len() as int
    } else {
        insertion_point(s.drop_last(), id)
    }
}

pub open spec fn insert_by_id(s: Seq<NoteView>, x: NoteView) -> Seq<NoteView> {
    s.insert(insertion_point(s, x.id), x)
}

/// `s` sorted by id, keeping notes with equal ids in their order: what a
/// stable sort by id gives.
pub open spec fn sort_by_id(s: Seq<NoteView>) -> Seq<NoteView>
    decreases s.len(),
{
    if s.len() == 0 {
        seq![]
    } else {
        insert_by_id(sort_by_id(s.drop_last()), s.last())
    }
}

pub open spec fn sorted_by_id(s: Seq<NoteView>) -> bool {
    forall|i: int, j: int| 0 <= i < j < s.len() ==> s[i].id <= s[j].id
}

pub open spec fn ids_increasing(s: Seq<NoteView>) -> bool {
    forall|i: int, j: int| 0 <= i < j < s.len() ==> s[i].id < s[j].id
}

proof fn lemma_insertion_point_bounds(s: Seq<NoteView>, id: u32)
    ensures
        0 <= insertion_point(s, id) <= s.len(),
        forall|j: int| insertion_point(s, id) <= j < s.len() ==> s[j].id > id,
        insertion_point(s, id) > 0 ==> s[insertion_point(s, id) - 1].id <= id,
    decreases s.len(),
{
    if s.len() > 0 && s.last().id > id {
        lemma_insertion_point_bounds(s.drop_last(), id);
        assert(forall|j: int| 0 <= j < s.len() - 1 ==> s.drop_last()[j] == s[j]);
    }
}

/// In a sorted sequence the insertion point splits the ids: not greater
/// before it, greater after it.
proof fn lemma_insertion_point_sorted(s: Seq<NoteView>, id: u32)
    requires
        sorted_by_id(s),
    ensures
        forall|j: int| 0 <= j < insertion_point(s, id) ==> s[j].id <= id,
        forall|j: int| insertion_point(s, id) <= j < s.len() ==> s[j].id > id,
{
    lemma_insertion_point_bounds(s, id);
}

/// The insertion point is fixed by a split of the ids.
proof fn lemma_insertion_point_at(s: Seq<NoteView>, id: u32, k: int)
    requires
        0 <= k <= s.len(),
        forall|j: int| k <= j < s.len() ==> s[j].id > id,
        k > 0 ==> s[k - 1].id <= id,
    ensures
        insertion_point(s, id) == k,
    decreases s.len(),
{
    if s.len() > k {
        lemma_insertion_point_at(s.drop_last(), id, k);
    }
}

proof fn lemma_insert_sorted(s: Seq<NoteView>, x: NoteView)
    requires
        sorted_by_id(s),
    ensures
        sorted_by_id(insert_by_id(s, x)),
{
    lemma_insertion_point_sorted(s, x.id);
    lemma_insertion_point_bounds(s, x.id);
    let k = insertion_point(s, x.id);
    let r = insert_by_id(s, x);
    assert forall|i: int, j: int| 0 <= i < j < r.len() implies r[i].id <= r[j].id by {
        if j < k {
        } else if j == k {
        } else if i < k {
        } else if i == k {
        } else {
        }
    }
}

/// What `sort_by_id` gives is sorted and holds the same notes.
pub proof fn lemma_sort_by_id(s: Seq<NoteView>)
    ensures
        sorted_by_id(sort_by_id(s)),
        sort_by_id(s).to_multiset() == s.to_multiset(),
        sort_by_id(s).len() == s.len(),
    decreases s.len(),
{
    broadcast use vstd::seq_lib::group_to_multiset_ensures;
    if s.len() > 0 {
        lemma_sort_by_id(s.drop_last());
        lemma_insert_sorted(sort_by_id(s.drop_last()), s.last());
        lemma_insertion_point_bounds(sort_by_id(s.drop_last()), s.last().id);
        vstd::seq_lib::to_multiset_insert(
            sort_by_id(s.drop_last()),
            insertion_point(sort_by_id(s.drop_last()), s.last().id),
            s.last(),
        );
        vstd::seq_lib::to_multiset_build(s.drop_last(), s.last());
        assert(s.drop_last().push(s.last()) =~= s);
    }
}

/// Sorting what is already sorted changes nothing.
pub proof fn lemma_sort_sorted(s: Seq<NoteView>)
    requires
        sorted_by_id(s),
    ensures
        sort_by_id(s) == s,
    decreases s.len(),
{
    if s.len() > 0 {
        let d = s.drop_last();
        lemma_sort_sorted(d);
        lemma_insertion_point_at(d, s.last().id, d.len() as int);
        assert(d.insert(d.len() as int, s.last()) =~= s);
    }
}

/// Taking a note out of a sequence with increasing ids and putting it back
/// in order gives the sequence back.
pub proof fn lemma_reinsert(s: Seq<NoteView>, pos: int)
    requires
        ids_increasing(s),
        0 <= pos < s.len(),
    ensures
        insert_by_id(s.remove(pos), s[pos]) == s,
{
    let t = s.remove(pos);
    lemma_insertion_point_at(t, s[pos].id, pos);
    assert(t.insert(pos, s[pos]) =~= s);
}

/// Moves the notes of `v` into a new vector sorted by id, stably.
fn sort_notes_by_id(v: Vec<Note>) -> (r: Vec<Note>)
    ensures
        note_views(r@) == sort_by_id(note_views(v@)),
{
    let ghost orig = note_views(v@);
    let mut rest = v;
    let mut out: Vec<Note> = Vec::new();
    let ghost mut k: int = 0;
    assert(orig.take(0) =~= Seq::<NoteView>::empty());
    assert(note_views(out@) =~= Seq::<NoteView>::empty());
    while rest.len() > 0
        invariant
            0 <= k <= orig.len(),
            note_views(rest@) == orig.skip(k),
            note_views(out@) == sort_by_id(orig.take(k)),
        decreases rest.len(),
    {
        let ghost before = note_views(rest@);
        assert(before.len() == rest@.len());
        let x = rest.remove(0);
        assert(k < orig.len());
        assert(before[0] == orig[k]);
        assert(note_views(rest@) =~= before.subrange(1, before.len() as int));
        assert(note_views(rest@) =~= orig.skip(k + 1));
        let ghost outv = note_views(out@);
        let mut j: usize = out.len();
        assert(outv.take(j as int) =~= outv);
        while j > 0 && out[j - 1].id > x.id
            invariant
                j <= out.len(),
                outv == note_views(out@),
                insertion_point(outv, x.id) == insertion_point(outv.take(j as int), x.id),
            decreases j,
        {
            assert(outv.take(j as int).drop_last() =~= outv.take(j - 1));
            j -= 1;
        }
        assert(insertion_point(outv, x.id) == j);
        out.insert(j, x);
        assert(orig.take(k + 1).drop_last() =~= orig.take(k));
        assert(orig.take(k + 1).last() == x@);
        assert(note_views(out@) =~= outv.insert(j as int, x@));
        proof {
            k = k + 1;
        }
    }
    assert(orig.take(k) =~= orig);
    out
}

// ---------------------------------------------------------------------------
// What each operation does, over the view
// ---------------------------------------------------------------------------

pub open spec fn empty_manager() -> ManagerView {
    ManagerView { notes: seq![], trash: seq![], next_id: 1, autosave: true }
}

pub open spec fn created(m: ManagerView, title: Seq<char>, ts: u64) -> ManagerView {
    ManagerView {
        notes: m.notes.push(fresh_note(m.next_id, title, ts)),
        next_id: (m.next_id + 1) as u32,
        ..m
    }
}

/// The first note with id `id` moved from the notes to the end of the trash.
pub open spec fn deleted(m: ManagerView, id: u32) -> ManagerView {
    match find_note(m.notes, id) {
        Some(i) => ManagerView { notes: m.notes.remove(i), trash: m.trash.push(m.notes[i]), ..m },
        None => m,
    }
}

/// The most recently deleted note moved back, the notes sorted by id.
pub open spec fn undone(m: ManagerView) -> ManagerView {
    if m.trash.len() == 0 {
        m
    } else {
        ManagerView {
            notes: sort_by_id(m.notes.push(m.trash.last())),
            trash: m.trash.drop_last(),
            ..m
        }
    }
}

/// The first trashed note with id `id` moved back, the notes sorted by id.
pub open spec fn restored(m: ManagerView, id: u32) -> ManagerView {
    match find_note(m.trash, id) {
        Some(i) => ManagerView {
            notes: sort_by_id(m.notes.push(m.trash[i])),
            trash: m.trash.remove(i),
            ..m
        },
        None => m,
    }
}

/// Every trashed note moved back, the notes sorted by id.
pub open spec fn all_restored(m: ManagerView) -> ManagerView {
    ManagerView { notes: sort_by_id(m.notes + m.trash), trash: seq![], ..m }
}

/// The first trashed note with id `id` dropped for good.
pub open spec fn purged(m: ManagerView, id: u32) -> ManagerView {
    match find_note(m.trash, id) {
        Some(i) => ManagerView { trash: m.trash.remove(i), ..m },
        None => m,
    }
}

impl NoteManager {
    pub fn new() -> (r: NoteManager)
        ensures
            r@ == empty_manager(),
    {
        let r = NoteManager { notes: Vec::new(), next_id: 1, autosave: true, trash: Vec::new() };
        assert(r@ =~= empty_manager());
        r
    }

    /// Adds a note with the next id, stamped with the current time.
    pub fn create_note(&mut self, title: String)
        requires
            old(self).next_id < u32::MAX,
        ensures
            final(self)@ == created(old(self)@, title@, final(self)@.notes.last().created_at),
    {
        let ts = crate::clock::now_timestamp();
        self.create_note_at(title, ts);
    }

    /// Adds a note with the next id, stamped with `ts`.
    pub fn create_note_at(&mut self, title: String, ts: u64)
        requires
            old(self).next_id < u32::MAX,
        ensures
            final(self)@ == created(old(self)@, title@, ts),
    {
        let id = self.next_id;
        self.next_id = self.next_id + 1;
        let note = Note::new_at(id, title, ts);
        self.notes.push(note);
        assert(self@.notes =~= old(self)@.notes.push(note@));
    }

    pub fn get_note_by_id_ref(&self, id: u32) -> (r: Option<&Note>)
        ensures
            match r {
                Some(n) => find_note(self@.notes, id) matches Some(i) && n@ == self@.notes[i],
                None => find_note(self@.notes, id) is None,
            },
    {
        match position_of(&self.notes, id) {
            Some(i) => Some(&self.notes[i]),
            None => None,
        }
    }

    /// Moves the first note with id `id` to the trash; false when there is none.
    pub fn delete_note_by_id(&mut self, id: u32) -> (r: bool)
        ensures
            r == find_note(old(self)@.notes, id) is Some,
            final(self)@ == deleted(old(self)@, id),
    {
        match position_of(&self.notes, id) {
            Some(pos) => {
                let note = self.notes.remove(pos);
                self.trash.push(note);
                assert(self@.notes =~= old(self)@.notes.remove(pos as int));
                assert(self@.trash =~= old(self)@.trash.push(old(self)@.notes[pos as int]));
                true
            },
            None => false,
        }
    }

    /// Moves the most recently deleted note back and sorts the notes by id;
    /// gives its id, or `None` when the trash is empty.
    pub fn undo_delete(&mut self) -> (r: Option<u32>)
        ensures
            r == (if old(self)@.trash.len() == 0 { None } else { Some(old(self)@.trash.last().id) }),
            final(self)@ == undone(old(self)@),
    {
        match self.trash.pop() {
            Some(note) => {
                let id = note.id;
                let mut notes = Vec::new();
                std::mem::swap(&mut notes, &mut self.notes);
                notes.push(note);
                assert(note_views(notes@) =~= old(self)@.notes.push(old(self)@.trash.last()));
                self.notes = sort_notes_by_id(notes);
                assert(self@.trash =~= old(self)@.trash.drop_last());
                Some(id)
            },
            None => None,
        }
    }

    /// Moves the first trashed note with id `id` back and sorts the notes by
    /// id; false when the trash holds none.
    pub fn restore_from_trash(&mut self, id: u32) -> (r: bool)
        ensures
            r == find_note(old(self)@.trash, id) is Some,
            final(self)@ == restored(old(self)@, id),
    {
        match position_of(&self.trash, id) {
            Some(pos) => {
                let note = self.trash.remove(pos);
                let mut notes = Vec::new();
                std::mem::swap(&mut notes, &mut self.notes);
                notes.push(note);
                assert(note_views(notes@) =~= old(self)@.notes.push(old(self)@.trash[pos as int]));
                self.notes = sort_notes_by_id(notes);
                assert(self@.trash =~= old(self)@.trash.remove(pos as int));
                true
            },
            None => false,
        }
    }

    /// Moves every trashed note back and sorts the notes by id.
    pub fn restore_all_from_trash(&mut self)
        ensures
            final(self)@ == all_restored(old(self)@),
    {
        let mut notes = Vec::new();
        std::mem::swap(&mut notes, &mut self.notes);
        let mut all = Vec::new();
        std::mem::swap(&mut all, &mut self.trash);
        notes.append(&mut all);
        assert(note_views(notes@) =~= old(self)@.notes + old(self)@.trash);
        self.notes = sort_notes_by_id(notes);
        assert(self@.trash =~= Seq::<NoteView>::empty());
    }

    /// Drops the first trashed note with id `id` for good; false when there is none.
    pub fn delete_from_trash(&mut self, id: u32) -> (r: bool)
        ensures
            r == find_note(old(self)@.trash, id) is Some,
            final(self)@ == purged(old(self)@, id),
    {
        match position_of(&self.trash, id) {
            Some(pos) => {
                self.trash.remove(pos);
                assert(self@.trash =~= old(self)@.trash.remove(pos as int));
                true
            },
            None => false,
        }
    }

    pub fn empty_trash(&mut self)
        ensures
            final(self)@ == (ManagerView { trash: seq![], ..old(self)@ }),
    {
        self.trash.clear();
        assert(self@.trash =~= Seq::<NoteView>::empty());
    }
}


// ---------------------------------------------------------------------------
// Changing one note
// ---------------------------------------------------------------------------

/// `m` with the first note with id `id` replaced by `f` of it.
pub open spec fn with_note(m: ManagerView, id: u32, f: spec_fn(NoteView) -> NoteView) -> ManagerView {
    match find_note(m.notes, id) {
        Some(i) => ManagerView { notes: m.notes.update(i, f(m.notes[i])), ..m },
        None => m,
    }
}

pub open spec fn colored(c: NoteColor) -> spec_fn(NoteView) -> NoteView {
    |n: NoteView| NoteView { color: c, ..n }
}

pub open spec fn locked(p: Option<Seq<char>>) -> spec_fn(NoteView) -> NoteView {
    |n: NoteView| NoteView { password: p, ..n }
}

pub open spec fn reminded(r: Option<u64>) -> spec_fn(NoteView) -> NoteView {
    |n: NoteView| NoteView { reminder: r, ..n }
}

/// `n` with `tag` added, unless it already has it.
pub open spec fn tag_added(n: NoteView, tag: Seq<char>) -> NoteView {
    if n.tags.contains(tag) {
        n
    } else {
        NoteView { tags: n.tags.push(tag), ..n }
    }
}

pub open spec fn other_than(tag: Seq<char>) -> spec_fn(Seq<char>) -> bool {
    |t: Seq<char>| t != tag
}

/// `n` without any copy of `tag`.
pub open spec fn tag_removed(n: NoteView, tag: Seq<char>) -> NoteView {
    NoteView { tags: n.tags.filter(other_than(tag)), ..n }
}

pub open spec fn adds_tag(tag: Seq<char>) -> spec_fn(NoteView) -> NoteView {
    |n: NoteView| tag_added(n, tag)
}

pub open spec fn removes_tag(tag: Seq<char>) -> spec_fn(NoteView) -> NoteView {
    |n: NoteView| tag_removed(n, tag)
}

/// `n` with a link to `to`, unless it already has one.
pub open spec fn link_added(n: NoteView, to: u32) -> NoteView {
    if n.links.contains(to) {
        n
    } else {
        NoteView { links: n.links.push(to), ..n }
    }
}

pub open spec fn not_link(to: u32) -> spec_fn(u32) -> bool {
    |l: u32| l != to
}

pub open spec fn adds_link(to: u32) -> spec_fn(NoteView) -> NoteView {
    |n: NoteView| link_added(n, to)
}

pub open spec fn removes_link(to: u32) -> spec_fn(NoteView) -> NoteView {
    |n: NoteView| NoteView { links: n.links.filter(not_link(to)), ..n }
}

/// Whether `attempt` opens note `id`: it must exist, and match its password
/// if it has one.
pub open spec fn password_accepts(m: ManagerView, id: u32, attempt: Seq<char>) -> bool {
    match find_note(m.notes, id) {
        Some(i) => match m.notes[i].password {
            Some(p) => p == attempt,
            None => true,
        },
        None => false,
    }
}

/// Every note with `tag` added.
pub open spec fn tagged_all(m: ManagerView, tag: Seq<char>) -> ManagerView {
    ManagerView { notes: m.notes.map_values(|n: NoteView| tag_added(n, tag)), ..m }
}

/// Every note without `tag`.
pub open spec fn untagged_all(m: ManagerView, tag: Seq<char>) -> ManagerView {
    ManagerView { notes: m.notes.map_values(|n: NoteView| tag_removed(n, tag)), ..m }
}

fn add_tag(note: &mut Note, tag: &str)
    ensures
        final(note)@ == tag_added(old(note)@, tag@),
{
    let mut i: usize = 0;
    while i < note.tags.len()
        invariant
            i <= note.tags.len(),
            note@ == old(note)@,
            forall|j: int| 0 <= j < i ==> note@.tags[j] != tag@,
        decreases note.tags.len() - i,
    {
        if str_eq(note.tags[i].as_str(), tag) {
            assert(note@.tags[i as int] == tag@);
            return;
        }
        i += 1;
    }
    note.tags.push(crate::text::str_to_string(tag));
    assert(views(note.tags@) =~= views(old(note).tags@).push(tag@));
    assert(final(note)@ =~= tag_added(old(note)@, tag@));
}

fn remove_tag(note: &mut Note, tag: &str)
    ensures
        final(note)@ == tag_removed(old(note)@, tag@),
{
    reveal(Seq::filter);
    let ghost tv = views(note.tags@);
    let mut kept: Vec<String> = Vec::new();
    let mut i: usize = 0;
    assert(tv.take(0) =~= Seq::<Seq<char>>::empty());
    while i < note.tags.len()
        invariant
            i <= note.tags.len(),
            note@ == old(note)@,
            tv == views(note.tags@),
            views(kept@) == tv.take(i as int).filter(other_than(tag@)),
        decreases note.tags.len() - i,
    {
        reveal(Seq::filter);
        assert(tv.take(i + 1).drop_last() =~= tv.take(i as int));
        assert(tv.take(i + 1).last() == tv[i as int]);
        if !str_eq(note.tags[i].as_str(), tag) {
            let t = note.tags[i].clone();
            let ghost before = views(kept@);
            kept.push(t);
            assert(views(kept@) =~= before.push(tv[i as int]));
        }
        i += 1;
    }
    assert(tv.take(i as int) =~= tv);
    note.tags = kept;
    assert(final(note)@ =~= tag_removed(old(note)@, tag@));
}

fn has_link(links: &Vec<u32>, to: u32) -> (r: bool)
    ensures
        r == links@.contains(to),
{
    let mut i: usize = 0;
    while i < links.len()
        invariant
            i <= links.len(),
            forall|j: int| 0 <= j < i ==> links@[j] != to,
        decreases links.len() - i,
    {
        if links[i] == to {
            return true;
        }
        i += 1;
    }
    false
}

fn remove_link(note: &mut Note, to: u32)
    ensures
        final(note)@ == (removes_link(to))(old(note)@),
{
    reveal(Seq::filter);
    let ghost ls = note.links@;
    let mut kept: Vec<u32> = Vec::new();
    let mut i: usize = 0;
    assert(ls.take(0) =~= Seq::<u32>::empty());
    while i < note.links.len()
        invariant
            i <= note.links.len(),
            note@ == old(note)@,
            ls == note.links@,
            kept@ == ls.take(i as int).filter(not_link(to)),
        decreases note.links.len() - i,
    {
        reveal(Seq::filter);
        assert(ls.take(i + 1).drop_last() =~= ls.take(i as int));
        assert(ls.take(i + 1).last() == ls[i as int]);
        if note.links[i] != to {
            kept.push(note.links[i]);
        }
        i += 1;
    }
    assert(ls.take(i as int) =~= ls);
    note.links = kept;
    assert(final(note)@ =~= (removes_link(to))(old(note)@));
}

impl NoteManager {
    pub fn get_note_by_id(&mut self, id: u32) -> (r: Option<&mut Note>)
        ensures
            match r {
                Some(n) => find_note(old(self)@.notes, id) matches Some(i) && *n == old(self).notes@[i]
                    && final(self).notes@ == old(self).notes@.update(i, *final(n))
                    && final(self).trash@ == old(self).trash@ && final(self).next_id == old(self).next_id
                    && final(self).autosave == old(self).autosave,
                None => find_note(old(self)@.notes, id) is None && *final(self) == *old(self),
            },
    {
        match position_of(&self.notes, id) {
            Some(i) => Some(&mut self.notes[i]),
            None => None,
        }
    }

    pub fn set_color(&mut self, id: u32, color: NoteColor) -> (r: bool)
        ensures
            r == find_note(old(self)@.notes, id) is Some,
            final(self)@ == with_note(old(self)@, id, colored(color)),
    {
        match position_of(&self.notes, id) {
            Some(i) => {
                self.notes[i].color = color;
                assert(self@.notes =~= old(self)@.notes.update(i as int, (colored(color))(old(self)@.notes[i as int])));
                true
            },
            None => false,
        }
    }

    pub fn bulk_add_tag(&mut self, tag: &str)
        ensures
            final(self)@ == tagged_all(old(self)@, tag@),
    {
        let mut i: usize = 0;
        while i < self.notes.len()
            invariant
                i <= self.notes.len() == old(self).notes.len(),
                self.trash == old(self).trash,
                self.next_id == old(self).next_id,
                self.autosave == old(self).autosave,
                forall|j: int| 0 <= j < i ==> self@.notes[j] == tag_added(old(self)@.notes[j], tag@),
                forall|j: int| i <= j < self.notes.len() ==> self.notes@[j] == old(self).notes@[j],
            decreases self.notes.len() - i,
        {
            let ghost prev = self.notes@;
            let ghost prev_view = self@.notes;
            assert(prev[i as int] == old(self).notes@[i as int]);
            add_tag(&mut self.notes[i], tag);
            assert(forall|j: int| 0 <= j < self.notes.len() && j != i ==> self.notes@[j] == prev[j]);
            assert(self@.notes[i as int] == tag_added(old(self)@.notes[i as int], tag@));
            assert forall|j: int| 0 <= j < i + 1 implies self@.notes[j] == tag_added(old(self)@.notes[j], tag@) by {
                if j < i {
                    assert(self@.notes[j] == prev_view[j]);
                }
            }
            i += 1;
        }
        assert(self@ =~= tagged_all(old(self)@, tag@));
    }

    pub fn bulk_remove_tag(&mut self, tag: &str)
        ensures
            final(self)@ == untagged_all(old(self)@, tag@),
    {
        let mut i: usize = 0;
        while i < self.notes.len()
            invariant
                i <= self.notes.len() == old(self).notes.len(),
                self.trash == old(self).trash,
                self.next_id == old(self).next_id,
                self.autosave == old(self).autosave,
                forall|j: int| 0 <= j < i ==> self@.notes[j] == tag_removed(old(self)@.notes[j], tag@),
                forall|j: int| i <= j < self.notes.len() ==> self.notes@[j] == old(self).notes@[j],
            decreases self.notes.len() - i,
        {
            let ghost prev = self.notes@;
            let ghost prev_view = self@.notes;
            assert(prev[i as int] == old(self).notes@[i as int]);
            remove_tag(&mut self.notes[i], tag);
            assert(forall|j: int| 0 <= j < self.notes.len() && j != i ==> self.notes@[j] == prev[j]);
            assert(self@.notes[i as int] == tag_removed(old(self)@.notes[i as int], tag@));
            assert forall|j: int| 0 <= j < i + 1 implies self@.notes[j] == tag_removed(old(self)@.notes[j], tag@) by {
                if j < i {
                    assert(self@.notes[j] == prev_view[j]);
                }
            }
            i += 1;
        }
        assert(self@ =~= untagged_all(old(self)@, tag@));
    }

    pub fn add_tag_to_note(&mut self, id: u32, tag: &str) -> (r: bool)
        ensures
            r == find_note(old(self)@.notes, id) is Some,
            final(self)@ == with_note(old(self)@, id, adds_tag(tag@)),
    {
        match position_of(&self.notes, id) {
            Some(i) => {
                add_tag(&mut self.notes[i], tag);
                assert(self@.notes =~= old(self)@.notes.update(i as int, (adds_tag(tag@))(old(self)@.notes[i as int])));
                true
            },
            None => false,
        }
    }

    pub fn remove_tag_from_note(&mut self, id: u32, tag: &str) -> (r: bool)
        ensures
            r == find_note(old(self)@.notes, id) is Some,
            final(self)@ == with_note(old(self)@, id, removes_tag(tag@)),
    {
        match position_of(&self.notes, id) {
            Some(i) => {
                remove_tag(&mut self.notes[i], tag);
                assert(self@.notes =~= old(self)@.notes.update(i as int, (removes_tag(tag@))(old(self)@.notes[i as int])));
                true
            },
            None => false,
        }
    }

    pub fn set_password(&mut self, id: u32, password: String) -> (r: bool)
        ensures
            r == find_note(old(self)@.notes, id) is Some,
            final(self)@ == with_note(old(self)@, id, locked(Some(password@))),
    {
        match position_of(&self.notes, id) {
            Some(i) => {
                self.notes[i].password = Some(password);
                assert(self@.notes =~= old(self)@.notes.update(i as int, (locked(Some(password@)))(old(self)@.notes[i as int])));
                true
            },
            None => false,
        }
    }

    pub fn remove_password(&mut self, id: u32) -> (r: bool)
        ensures
            r == find_note(old(self)@.notes, id) is Some,
            final(self)@ == with_note(old(self)@, id, locked(None)),
    {
        match position_of(&self.notes, id) {
            Some(i) => {
                self.notes[i].password = None;
                assert(self@.notes =~= old(self)@.notes.update(i as int, (locked(None))(old(self)@.notes[i as int])));
                true
            },
            None => false,
        }
    }

    /// Whether opening note `id` asks for a password: the note exists and is
    /// locked.
    pub fn needs_password(&self, id: u32) -> (r: bool)
        ensures
            r == (find_note(self@.notes, id) matches Some(i) && self@.notes[i].password is Some),
    {
        match position_of(&self.notes, id) {
            Some(i) => self.notes[i].password.is_some(),
            None => false,
        }
    }

    pub fn check_password(&self, id: u32, attempt: &str) -> (r: bool)
        ensures
            r == password_accepts(self@, id, attempt@),
    {
        match position_of(&self.notes, id) {
            Some(i) => match &self.notes[i].password {
                Some(p) => str_eq(p.as_str(), attempt),
                None => true,
            },
            None => false,
        }
    }

    pub fn set_reminder(&mut self, id: u32, ts: u64) -> (r: bool)
        ensures
            r == find_note(old(self)@.notes, id) is Some,
            final(self)@ == with_note(old(self)@, id, reminded(Some(ts))),
    {
        match position_of(&self.notes, id) {
            Some(i) => {
                self.notes[i].reminder = Some(ts);
                assert(self@.notes =~= old(self)@.notes.update(i as int, (reminded(Some(ts)))(old(self)@.notes[i as int])));
                true
            },
            None => false,
        }
    }

    /// Links note `from_id` to note `to_id` (one way); false, with nothing
    /// changed, when either note does not exist.
    pub fn link_notes(&mut self, from_id: u32, to_id: u32) -> (r: bool)
        ensures
            r == (find_note(old(self)@.notes, to_id) is Some && find_note(old(self)@.notes, from_id) is Some),
            final(self)@ == if find_note(old(self)@.notes, to_id) is Some {
                with_note(old(self)@, from_id, adds_link(to_id))
            } else {
                old(self)@
            },
    {
        if position_of(&self.notes, to_id).is_none() {
            return false;
        }
        match position_of(&self.notes, from_id) {
            Some(i) => {
                if !has_link(&self.notes[i].links, to_id) {
                    self.notes[i].links.push(to_id);
                }
                assert(self@.notes =~= old(self)@.notes.update(i as int, (adds_link(to_id))(old(self)@.notes[i as int])));
                true
            },
            None => false,
        }
    }

    pub fn unlink_notes(&mut self, from_id: u32, to_id: u32) -> (r: bool)
        ensures
            r == find_note(old(self)@.notes, from_id) is Some,
            final(self)@ == with_note(old(self)@, from_id, removes_link(to_id)),
    {
        match position_of(&self.notes, from_id) {
            Some(i) => {
                remove_link(&mut self.notes[i], to_id);
                assert(self@.notes =~= old(self)@.notes.update(i as int, (removes_link(to_id))(old(self)@.notes[i as int])));
                true
            },
            None => false,
        }
    }
}


// ---------------------------------------------------------------------------
// Reminders
// ---------------------------------------------------------------------------

pub open spec fn due_at(now: u64) -> spec_fn(NoteView) -> bool {
    |n: NoteView| reminder_due(n, now)
}

/// `n` with its reminder cleared if it is due by `now`.
pub open spec fn cleared_if_due(n: NoteView, now: u64) -> NoteView {
    if reminder_due(n, now) {
        NoteView { reminder: None, ..n }
    } else {
        n
    }
}

pub open spec fn reminders_cleared(m: ManagerView, now: u64) -> ManagerView {
    ManagerView { notes: m.notes.map_values(|n: NoteView| cleared_if_due(n, now)), ..m }
}

/// Each note's due reminder cleared, where note `j` is checked against the
/// time `nows[j]` (the clock is read once per note).
pub open spec fn reminders_cleared_each(m: ManagerView, nows: Seq<u64>) -> ManagerView {
    ManagerView { notes: Seq::new(m.notes.len(), |j: int| cleared_if_due(m.notes[j], nows[j])), ..m }
}

// ---------------------------------------------------------------------------
// Deleting a version
// ---------------------------------------------------------------------------

pub open spec fn not_numbered(vn: u32) -> spec_fn(VersionView) -> bool {
    |v: VersionView| v.version_number != vn
}

/// The versions renumbered 1, 2, ... in their order.
pub open spec fn renumbered(vs: Seq<VersionView>) -> Seq<VersionView> {
    Seq::new(vs.len(), |i: int| VersionView { version_number: (i + 1) as u32, ..vs[i] })
}

/// A version numbered `vn` can go: the note has more than one version and
/// some version carries that number.
pub open spec fn version_removable(n: NoteView, vn: u32) -> bool {
    n.versions.len() > 1 && n.versions.filter(not_numbered(vn)).len() < n.versions.len()
}

/// `n` without the versions numbered `vn`, the rest renumbered, updated at `now`.
pub open spec fn without_version(n: NoteView, vn: u32, now: u64) -> NoteView {
    NoteView { versions: renumbered(n.versions.filter(not_numbered(vn))), updated_at: now, ..n }
}

pub open spec fn version_deleted(m: ManagerView, id: u32, vn: u32, now: u64) -> ManagerView {
    match find_note(m.notes, id) {
        Some(i) => if version_removable(m.notes[i], vn) {
            ManagerView { notes: m.notes.update(i, without_version(m.notes[i], vn, now)), ..m }
        } else {
            m
        },
        None => m,
    }
}

pub open spec fn deletes_version(m: ManagerView, id: u32, vn: u32) -> bool {
    match find_note(m.notes, id) {
        Some(i) => version_removable(m.notes[i], vn),
        None => false,
    }
}

// ---------------------------------------------------------------------------
// Editing
// ---------------------------------------------------------------------------

/// What editing a note led to.
pub enum EditOutcome {
    /// No note has the id.
    NotFound,
    /// The entered text was empty; nothing was saved.
    Empty,
    /// A new version was saved.
    Saved { version_number: u32, line_count: usize, word_count: usize },
}

pub open spec fn joined_lines(lines: Seq<String>) -> Seq<char> {
    crate::text::join(views(lines), "\n"@)
}

/// The note `id` with `content` as a new version, when it exists and the
/// content is not empty.
pub open spec fn edited(m: ManagerView, id: u32, content: Seq<char>, version_ts: u64, now: u64) -> ManagerView {
    if content.len() == 0 {
        m
    } else {
        with_note(m, id, |n: NoteView| with_new_version(n, content, version_ts, now))
    }
}

pub open spec fn edit_outcome_matches(m: ManagerView, id: u32, content: Seq<char>, r: EditOutcome) -> bool {
    match r {
        EditOutcome::NotFound => find_note(m.notes, id) is None,
        EditOutcome::Empty => find_note(m.notes, id) is Some && content.len() == 0,
        EditOutcome::Saved { version_number, line_count, word_count } => find_note(m.notes, id) matches Some(
            i,
        ) && content.len() > 0 && version_number == m.notes[i].versions.len() + 1 && line_count
            == crate::text::lines(content).len() && word_count == crate::text::word_count(content),
    }
}

/// The content a version edit writes: the old content, a line feed and the
/// new lines when appending (choice "1"), else the new lines alone.
pub open spec fn rewritten_content(old_content: Seq<char>, choice: Seq<char>, lines: Seq<String>) -> Seq<char> {
    if choice == "1"@ {
        old_content + "\n"@ + joined_lines(lines)
    } else {
        joined_lines(lines)
    }
}

/// Whether a version edit happens: the note and the version exist and some
/// new lines were entered.
pub open spec fn version_edit_applies(m: ManagerView, id: u32, vn: u32, lines: Seq<String>) -> bool {
    match find_note(m.notes, id) {
        Some(i) => find_version(m.notes[i].versions, vn) is Some && lines.len() > 0,
        None => false,
    }
}

pub open spec fn version_rewritten(
    m: ManagerView,
    id: u32,
    vn: u32,
    choice: Seq<char>,
    lines: Seq<String>,
    version_ts: u64,
    now: u64,
) -> ManagerView {
    if version_edit_applies(m, id, vn, lines) {
        let i = find_note(m.notes, id)->0;
        let n = m.notes[i];
        let old_content = n.versions[find_version(n.versions, vn)->0].content;
        ManagerView {
            notes: m.notes.update(
                i,
                with_edited_version(n, vn, rewritten_content(old_content, choice, lines), version_ts, now),
            ),
            ..m
        }
    } else {
        m
    }
}

/// `m` after creating a note from a template: the new note has the template
/// as its first version.
pub open spec fn created_from_template(
    m: ManagerView,
    title: Seq<char>,
    template: Seq<char>,
    ts: u64,
    version_ts: u64,
    now: u64,
) -> ManagerView {
    let c = created(m, title, ts);
    ManagerView {
        notes: c.notes.update(
            c.notes.len() - 1,
            with_new_version(c.notes.last(), template, version_ts, now),
        ),
        ..c
    }
}

/// The positions of the pinned notes, in order.
pub open spec fn pinned_only(ns: Seq<NoteView>) -> Seq<usize> {
    Seq::new(ns.len(), |i: int| i as usize).filter(|i: usize| ns[i as int].pinned)
}

/// The positions of the notes, pinned ones first, each group in its order.
pub open spec fn pinned_first(ns: Seq<NoteView>) -> Seq<usize> {
    let idx = Seq::new(ns.len(), |i: int| i as usize);
    idx.filter(|i: usize| ns[i as int].pinned) + idx.filter(|i: usize| !ns[i as int].pinned)
}

/// Every note moved to the end of the trash, in order.
pub open spec fn all_deleted(m: ManagerView) -> ManagerView {
    ManagerView { notes: seq![], trash: m.trash + m.notes, ..m }
}

/// The first version that a note made from template choice `choice` gets:
/// a meeting (`2`), a to-do list (`3`) or a journal (`4`); any other choice
/// makes a blank note.
pub open spec fn template_text(choice: Seq<char>) -> Option<Seq<char>> {
    if choice == "2"@ {
        Some("## Attendees\n\n## Agenda\n\n## Action Items\n\n## Notes\n"@)
    } else if choice == "3"@ {
        Some("## To-Do\n\n- [ ] Item 1\n- [ ] Item 2\n- [ ] Item 3\n"@)
    } else if choice == "4"@ {
        Some("## Date\n\n## How I'm feeling\n\n## Today's highlights\n\n## Reflections\n"@)
    } else {
        None
    }
}

/// The template text for a menu choice.
pub fn template_for(choice: &str) -> (r: Option<&'static str>)
    ensures
        match r {
            Some(t) => template_text(choice@) == Some(t@),
            None => template_text(choice@) is None,
        },
{
    if str_eq(choice, "2") {
        Some("## Attendees\n\n## Agenda\n\n## Action Items\n\n## Notes\n")
    } else if str_eq(choice, "3") {
        Some("## To-Do\n\n- [ ] Item 1\n- [ ] Item 2\n- [ ] Item 3\n")
    } else if str_eq(choice, "4") {
        Some("## Date\n\n## How I'm feeling\n\n## Today's highlights\n\n## Reflections\n")
    } else {
        None
    }
}

impl NoteManager {
    /// The notes whose reminder is due by `now`, in order.
    pub fn due_reminders_at(&self, now: u64) -> (r: Vec<&Note>)
        ensures
            r@.map_values(|n: &Note| n@) == self@.notes.filter(due_at(now)),
    {
        reveal(Seq::filter);
        let ghost ns = self@.notes;
        let mut out: Vec<&Note> = Vec::new();
        let mut i: usize = 0;
        assert(ns.take(0) =~= Seq::<NoteView>::empty());
        while i < self.notes.len()
            invariant
                i <= self.notes.len(),
                ns == self@.notes,
                out@.map_values(|n: &Note| n@) == ns.take(i as int).filter(due_at(now)),
            decreases self.notes.len() - i,
        {
            reveal(Seq::filter);
            assert(ns.take(i + 1).drop_last() =~= ns.take(i as int));
            assert(ns.take(i + 1).last() == ns[i as int]);
            let ghost before = out@.map_values(|n: &Note| n@);
            if self.notes[i].is_reminder_due_at(now) {
                out.push(&self.notes[i]);
                assert(out@.map_values(|n: &Note| n@) =~= before.push(ns[i as int]));
            }
            i += 1;
        }
        assert(ns.take(i as int) =~= ns);
        out
    }

    /// The notes whose reminder is due by the current time, in order.
    pub fn due_reminders(&self) -> (r: Vec<&Note>)
        ensures
            exists|now: u64| r@.map_values(|n: &Note| n@) == #[trigger] self@.notes.filter(due_at(now)),
    {
        let now = crate::clock::now_timestamp();
        self.due_reminders_at(now)
    }

    /// Clears every reminder that is due by `now`.
    pub fn clear_due_reminders_at(&mut self, now: u64)
        ensures
            final(self)@ == reminders_cleared(old(self)@, now),
    {
        let mut i: usize = 0;
        while i < self.notes.len()
            invariant
                i <= self.notes.len() == old(self).notes.len(),
                self.trash == old(self).trash,
                self.next_id == old(self).next_id,
                self.autosave == old(self).autosave,
                forall|j: int| 0 <= j < i ==> self@.notes[j] == cleared_if_due(old(self)@.notes[j], now),
                forall|j: int| i <= j < self.notes.len() ==> self.notes@[j] == old(self).notes@[j],
            decreases self.notes.len() - i,
        {
            let ghost prev_view = self@.notes;
            if self.notes[i].is_reminder_due_at(now) {
                self.notes[i].reminder = None;
            }
            assert(self@.notes[i as int] == cleared_if_due(old(self)@.notes[i as int], now));
            assert forall|j: int| 0 <= j < i + 1 implies self@.notes[j] == cleared_if_due(old(self)@.notes[j], now) by {
                if j < i {
                    assert(self@.notes[j] == prev_view[j]);
                }
            }
            i += 1;
        }
        assert(self@ =~= reminders_cleared(old(self)@, now));
    }

    /// Clears every reminder that is due by the current time; each note is
    /// checked against the clock as it is reached.
    pub fn clear_due_reminders(&mut self)
        ensures
            exists|nows: Seq<u64>| nows.len() == old(self)@.notes.len() && final(self)@ == #[trigger] reminders_cleared_each(
                old(self)@,
                nows,
            ),
    {
        let ghost nows: Seq<u64> = Seq::empty();
        let mut i: usize = 0;
        while i < self.notes.len()
            invariant
                i <= self.notes.len() == old(self).notes.len(),
                nows.len() == i,
                self.trash == old(self).trash,
                self.next_id == old(self).next_id,
                self.autosave == old(self).autosave,
                forall|j: int| 0 <= j < i ==> #[trigger] self@.notes[j] == cleared_if_due(old(self)@.notes[j], nows[j]),
                forall|j: int| i <= j < self.notes.len() ==> #[trigger] self@.notes[j] == old(self)@.notes[j],
            decreases self.notes.len() - i,
        {
            let ghost prev_view = self@.notes;
            let ghost prev_nows = nows;
            let due = self.notes[i].is_reminder_due();
            let ghost w = choose|now: u64| due == #[trigger] reminder_due(prev_view[i as int], now);
            if due {
                self.notes[i].reminder = None;
            }
            proof {
                nows = nows.push(w);
            }
            assert(self@.notes[i as int] == cleared_if_due(old(self)@.notes[i as int], w));
            assert forall|j: int| 0 <= j < self.notes.len() && j != i implies self@.notes[j] == prev_view[j] by {}
            assert forall|j: int| 0 <= j < i + 1 implies #[trigger] self@.notes[j] == cleared_if_due(
                old(self)@.notes[j],
                nows[j],
            ) by {
                if j < i {
                    assert(nows[j] == prev_nows[j]);
                    assert(self@.notes[j] == prev_view[j]);
                }
            }
            assert forall|j: int| i + 1 <= j < self.notes.len() implies #[trigger] self@.notes[j] == old(self)@.notes[j] by {
                assert(self@.notes[j] == prev_view[j]);
            }
            i += 1;
        }
        assert(self@ =~= reminders_cleared_each(old(self)@, nows));
    }

    /// Deletes the versions numbered `version_number` of note `note_id` and
    /// renumbers the rest; refused (false) when the note does not exist, has
    /// only one version, or has no such version.  Stamped with the current time.
    pub fn delete_version(&mut self, note_id: u32, version_number: u32) -> (r: bool)
        requires
            find_note(old(self)@.notes, note_id) matches Some(i) ==> old(self)@.notes[i].versions.len() < u32::MAX,
        ensures
            r == deletes_version(old(self)@, note_id, version_number),
            r ==> final(self)@ == version_deleted(
                old(self)@,
                note_id,
                version_number,
                final(self)@.notes[find_note(old(self)@.notes, note_id)->0].updated_at,
            ),
            !r ==> final(self)@ == old(self)@,
    {
        let now = crate::clock::now_timestamp();
        proof {
            lemma_first_index_some(old(self)@.notes, has_id(note_id));
        }
        self.delete_version_at(note_id, version_number, now)
    }

    pub fn delete_version_at(&mut self, note_id: u32, version_number: u32, now: u64) -> (r: bool)
        requires
            find_note(old(self)@.notes, note_id) matches Some(i) ==> old(self)@.notes[i].versions.len() < u32::MAX,
        ensures
            r == deletes_version(old(self)@, note_id, version_number),
            final(self)@ == version_deleted(old(self)@, note_id, version_number, now),
    {
        let i = match position_of(&self.notes, note_id) {
            Some(i) => i,
            None => return false,
        };
        proof {
            lemma_first_index_some(old(self)@.notes, has_id(note_id));
        }
        if self.notes[i].versions.len() <= 1 {
            return false;
        }
        let ghost vs = self@.notes[i as int].versions;
        let mut versions: Vec<Version> = Vec::new();
        std::mem::swap(&mut versions, &mut self.notes[i].versions);
        let before = versions.len();
        let kept = keep_versions_not_numbered(versions, version_number);
        assert(crate::note::version_views(kept@) == vs.filter(not_numbered(version_number)));
        if kept.len() < before {
            let renum = renumber_versions(kept);
            self.notes[i].versions = renum;
            self.notes[i].updated_at = now;
            assert(self@.notes =~= old(self)@.notes.update(i as int, without_version(old(self)@.notes[i as int], version_number, now)));
            true
        } else {
            self.notes[i].versions = kept;
            assert(crate::note::version_views(kept@) =~= vs) by {
                reveal(Seq::filter);
                lemma_filter_full(vs, not_numbered(version_number));
            }
            assert(self@.notes =~= old(self)@.notes);
            false
        }
    }
}

/// A filter that keeps as many elements as it sees keeps them all.
proof fn lemma_filter_full<T>(s: Seq<T>, p: spec_fn(T) -> bool)
    requires
        s.filter(p).len() >= s.len(),
    ensures
        s.filter(p) == s,
    decreases s.len(),
{
    reveal(Seq::filter);
    if s.len() > 0 {
        s.drop_last().lemma_filter_len(p);
        if !p(s.last()) {
            assert(false);
        }
        lemma_filter_full(s.drop_last(), p);
        assert(s.drop_last().push(s.last()) =~= s);
    }
}

/// The versions of `vs` not numbered `vn`, in order.
fn keep_versions_not_numbered(vs: Vec<Version>, vn: u32) -> (r: Vec<Version>)
    ensures
        crate::note::version_views(r@) == crate::note::version_views(vs@).filter(not_numbered(vn)),
{
    let ghost orig = crate::note::version_views(vs@);
    let mut rest = vs;
    let mut out: Vec<Version> = Vec::new();
    let ghost mut k: int = 0;
    assert(orig.take(0) =~= Seq::<VersionView>::empty());
    assert(crate::note::version_views(out@) =~= Seq::<VersionView>::empty());
    while rest.len() > 0
        invariant
            0 <= k <= orig.len(),
            crate::note::version_views(rest@) == orig.skip(k),
            crate::note::version_views(out@) == orig.take(k).filter(not_numbered(vn)),
        decreases rest.len(),
    {
        reveal(Seq::filter);
        let ghost before = crate::note::version_views(rest@);
        assert(before.len() == rest@.len());
        let v = rest.remove(0);
        assert(k < orig.len());
        assert(before[0] == orig[k]);
        assert(crate::note::version_views(rest@) =~= before.subrange(1, before.len() as int));
        assert(crate::note::version_views(rest@) =~= orig.skip(k + 1));
        assert(orig.take(k + 1).drop_last() =~= orig.take(k));
        assert(orig.take(k + 1).last() == v@);
        let ghost out_before = crate::note::version_views(out@);
        if v.version_number != vn {
            out.push(v);
            assert(crate::note::version_views(out@) =~= out_before.push(v@));
        }
        proof {
            k = k + 1;
        }
    }
    assert(orig.take(k) =~= orig);
    out
}

/// The versions renumbered 1, 2, ... in their order.
fn renumber_versions(vs: Vec<Version>) -> (r: Vec<Version>)
    requires
        vs.len() < u32::MAX,
    ensures
        crate::note::version_views(r@) == renumbered(crate::note::version_views(vs@)),
{
    let ghost orig = crate::note::version_views(vs@);
    let mut vs = vs;
    let mut i: usize = 0;
    while i < vs.len()
        invariant
            i <= vs.len() == orig.len(),
            vs.len() < u32::MAX,
            forall|j: int| 0 <= j < i ==> #[trigger] vs@[j]@ == renumbered(orig)[j],
            forall|j: int| i <= j < vs.len() ==> #[trigger] vs@[j]@ == orig[j],
        decreases vs.len() - i,
    {
        let ghost prev = vs@;
        vs[i].version_number = i as u32 + 1;
        assert(forall|j: int| 0 <= j < vs.len() && j != i ==> vs@[j] == prev[j]);
        assert(prev[i as int]@ == orig[i as int]);
        assert(vs@[i as int].content == prev[i as int].content);
        assert(vs@[i as int]@ =~= renumbered(orig)[i as int]);
        i += 1;
    }
    assert(crate::note::version_views(vs@) =~= renumbered(orig));
    vs
}


impl NoteManager {
    /// Adds the entered lines, joined by line feeds, as a new version of note
    /// `id`, stamped with the current time.
    pub fn edit_note_by_id(&mut self, id: u32, lines: &Vec<String>) -> (r: EditOutcome)
        requires
            find_note(old(self)@.notes, id) matches Some(i) ==> old(self)@.notes[i].versions.len() < u32::MAX,
        ensures
            edit_outcome_matches(old(self)@, id, joined_lines(lines@), r),
            r is Saved ==> final(self)@ == edited(
                old(self)@,
                id,
                joined_lines(lines@),
                final(self)@.notes[find_note(old(self)@.notes, id)->0].versions.last().created_at,
                final(self)@.notes[find_note(old(self)@.notes, id)->0].updated_at,
            ),
            !(r is Saved) ==> final(self)@ == old(self)@,
    {
        let version_ts = crate::clock::now_timestamp();
        let now = crate::clock::now_timestamp();
        proof {
            lemma_first_index_some(old(self)@.notes, has_id(id));
        }
        self.edit_note_by_id_at(id, lines, version_ts, now)
    }

    pub fn edit_note_by_id_at(&mut self, id: u32, lines: &Vec<String>, version_ts: u64, now: u64) -> (r: EditOutcome)
        requires
            find_note(old(self)@.notes, id) matches Some(i) ==> old(self)@.notes[i].versions.len() < u32::MAX,
        ensures
            edit_outcome_matches(old(self)@, id, joined_lines(lines@), r),
            final(self)@ == edited(old(self)@, id, joined_lines(lines@), version_ts, now),
    {
        let i = match position_of(&self.notes, id) {
            Some(i) => i,
            None => return EditOutcome::NotFound,
        };
        proof {
            lemma_first_index_some(old(self)@.notes, has_id(id));
        }
        let content = join_strings(lines, "\n");
        let cs = chars_of(content.as_str());
        if cs.len() == 0 {
            return EditOutcome::Empty;
        }
        let split = split_lines(&cs);
        assert(split@.map_values(|l: Vec<char>| l@).len() == split@.len());
        let line_count = split.len();
        let word_count = count_words(&cs);
        let version_number = self.notes[i].versions.len() as u32 + 1;
        self.notes[i].add_version_at(content, version_ts, now);
        assert(self@.notes =~= old(self)@.notes.update(
            i as int,
            with_new_version(old(self)@.notes[i as int], joined_lines(lines@), version_ts, now),
        ));
        EditOutcome::Saved { version_number, line_count, word_count }
    }

    /// The content of the first version numbered `version_number` of note `note_id`.
    pub fn find_version_content(&self, note_id: u32, version_number: u32) -> (r: Option<&String>)
        ensures
            match r {
                Some(c) => find_note(self@.notes, note_id) matches Some(i) && find_version(
                    self@.notes[i].versions,
                    version_number,
                ) matches Some(j) && c@ == self@.notes[i].versions[j].content,
                None => !(find_note(self@.notes, note_id) matches Some(i) && find_version(
                    self@.notes[i].versions,
                    version_number,
                ) is Some),
            },
    {
        let i = match position_of(&self.notes, note_id) {
            Some(i) => i,
            None => return None,
        };
        proof {
            lemma_first_index_some(self@.notes, has_id(note_id));
        }
        match self.notes[i].version_position(version_number) {
            Some(j) => {
                proof {
                    lemma_first_index_some(self@.notes[i as int].versions, crate::note::has_number(version_number));
                }
                Some(&self.notes[i].versions[j].content)
            },
            None => None,
        }
    }

    /// Rewrites version `version_number` of note `note_id` with the entered
    /// lines, appended to its content when `choice` is "1", else in its
    /// place; stamped with the current time.  False, with nothing changed,
    /// when the note or version does not exist or no line was entered.
    pub fn edit_version_of_note(
        &mut self,
        note_id: u32,
        version_number: u32,
        choice: &str,
        new_lines: &Vec<String>,
    ) -> (r: bool)
        ensures
            r == version_edit_applies(old(self)@, note_id, version_number, new_lines@),
            r ==> exists|version_ts: u64, now: u64| final(self)@ == #[trigger] version_rewritten(
                old(self)@,
                note_id,
                version_number,
                choice@,
                new_lines@,
                version_ts,
                now,
            ),
            !r ==> final(self)@ == old(self)@,
    {
        let version_ts = crate::clock::now_timestamp();
        let now = crate::clock::now_timestamp();
        self.edit_version_of_note_at(note_id, version_number, choice, new_lines, version_ts, now)
    }

    pub fn edit_version_of_note_at(
        &mut self,
        note_id: u32,
        version_number: u32,
        choice: &str,
        new_lines: &Vec<String>,
        version_ts: u64,
        now: u64,
    ) -> (r: bool)
        ensures
            r == version_edit_applies(old(self)@, note_id, version_number, new_lines@),
            final(self)@ == version_rewritten(
                old(self)@,
                note_id,
                version_number,
                choice@,
                new_lines@,
                version_ts,
                now,
            ),
    {
        let i = match position_of(&self.notes, note_id) {
            Some(i) => i,
            None => return false,
        };
        proof {
            lemma_first_index_some(old(self)@.notes, has_id(note_id));
        }
        let j = match self.notes[i].version_position(version_number) {
            Some(j) => j,
            None => return false,
        };
        proof {
            lemma_first_index_some(old(self)@.notes[i as int].versions, crate::note::has_number(version_number));
        }
        if new_lines.len() == 0 {
            return false;
        }
        let joined = join_strings(new_lines, "\n");
        let content = if str_eq(choice, "1") {
            let mut c = self.notes[i].versions[j].content.clone();
            append_str(&mut c, "\n");
            append_str(&mut c, joined.as_str());
            c
        } else {
            joined
        };
        let ghost n = old(self)@.notes[i as int];
        assert(content@ == rewritten_content(n.versions[j as int].content, choice@, new_lines@));
        self.notes[i].edit_version_at(version_number, content, version_ts, now);
        assert(self@.notes =~= old(self)@.notes.update(
            i as int,
            with_edited_version(n, version_number, content@, version_ts, now),
        ));
        true
    }

    /// Creates a note whose first version is `template`, stamped with the
    /// current time.
    pub fn create_note_from_template(&mut self, title: String, template: &str)
        requires
            old(self).next_id < u32::MAX,
        ensures
            exists|ts: u64, version_ts: u64, now: u64| final(self)@ == #[trigger] created_from_template(
                old(self)@,
                title@,
                template@,
                ts,
                version_ts,
                now,
            ),
    {
        let ts = crate::clock::now_timestamp();
        let version_ts = crate::clock::now_timestamp();
        let now = crate::clock::now_timestamp();
        self.create_note_from_template_at(title, template, ts, version_ts, now);
    }

    pub fn create_note_from_template_at(
        &mut self,
        title: String,
        template: &str,
        ts: u64,
        version_ts: u64,
        now: u64,
    )
        requires
            old(self).next_id < u32::MAX,
        ensures
            final(self)@ == created_from_template(old(self)@, title@, template@, ts, version_ts, now),
    {
        self.create_note_at(title, ts);
        assert(self@.notes.len() == old(self)@.notes.len() + 1);
        let last = self.notes.len() - 1;
        let ghost c = self@;
        self.notes[last].add_version_at(crate::text::str_to_string(template), version_ts, now);
        assert(self@.notes =~= c.notes.update(
            last as int,
            with_new_version(c.notes.last(), template@, version_ts, now),
        ));
    }

    /// The positions of the notes in display order: pinned notes first, each
    /// group in its own order.
    pub fn display_order(&self) -> (r: Vec<usize>)
        ensures
            r@ == pinned_first(self@.notes),
    {
        reveal(Seq::filter);
        let ghost ns = self@.notes;
        let ghost idx = Seq::new(ns.len(), |i: int| i as usize);
        let ghost pin = |i: usize| ns[i as int].pinned;
        let ghost unpin = |i: usize| !ns[i as int].pinned;
        let mut first: Vec<usize> = Vec::new();
        let mut second: Vec<usize> = Vec::new();
        let mut i: usize = 0;
        assert(idx.take(0) =~= Seq::<usize>::empty());
        while i < self.notes.len()
            invariant
                i <= self.notes.len(),
                ns == self@.notes,
                idx == Seq::new(ns.len(), |i: int| i as usize),
                pin == (|i: usize| ns[i as int].pinned),
                unpin == (|i: usize| !ns[i as int].pinned),
                first@ == idx.take(i as int).filter(pin),
                second@ == idx.take(i as int).filter(unpin),
            decreases self.notes.len() - i,
        {
            reveal(Seq::filter);
            assert(idx.take(i + 1).drop_last() =~= idx.take(i as int));
            assert(idx.take(i + 1).last() == i);
            if self.notes[i].pinned {
                first.push(i);
            } else {
                second.push(i);
            }
            i += 1;
        }
        assert(idx.take(i as int) =~= idx);
        first.append(&mut second);
        first
    }

    /// The positions of the pinned notes, in order.
    pub fn pinned_positions(&self) -> (r: Vec<usize>)
        ensures
            r@ == pinned_only(self@.notes),
    {
        reveal(Seq::filter);
        let ghost ns = self@.notes;
        let ghost idx = Seq::new(ns.len(), |i: int| i as usize);
        let ghost pin = |i: usize| ns[i as int].pinned;
        let mut r: Vec<usize> = Vec::new();
        let mut i: usize = 0;
        assert(idx.take(0) =~= Seq::<usize>::empty());
        while i < self.notes.len()
            invariant
                i <= self.notes.len(),
                ns == self@.notes,
                idx == Seq::new(ns.len(), |i: int| i as usize),
                pin == (|i: usize| ns[i as int].pinned),
                r@ == idx.take(i as int).filter(pin),
            decreases self.notes.len() - i,
        {
            reveal(Seq::filter);
            assert(idx.take(i + 1).drop_last() =~= idx.take(i as int));
            assert(idx.take(i + 1).last() == i);
            if self.notes[i].pinned {
                r.push(i);
            }
            i += 1;
        }
        assert(idx.take(i as int) =~= idx);
        r
    }

    /// Deletes every note, one id after another in their order: each goes to
    /// the trash, so the trash gains all the notes in order.
    pub fn delete_all_notes(&mut self)
        ensures
            final(self)@ == all_deleted(old(self)@),
    {
        let mut ids: Vec<u32> = Vec::new();
        let mut i: usize = 0;
        while i < self.notes.len()
            invariant
                i <= self.notes.len(),
                ids.len() == i,
                forall|j: int| 0 <= j < i ==> ids@[j] == #[trigger] self@.notes[j].id,
            decreases self.notes.len() - i,
        {
            ids.push(self.notes[i].id);
            i += 1;
        }
        let ghost m = self@;
        let mut k: usize = 0;
        assert(m.notes.skip(0) =~= m.notes);
        assert(m.trash + m.notes.take(0) =~= m.trash);
        while k < ids.len()
            invariant
                k <= ids.len() == m.notes.len(),
                forall|j: int| 0 <= j < ids.len() ==> ids@[j] == #[trigger] m.notes[j].id,
                self@.notes == m.notes.skip(k as int),
                self@.trash == m.trash + m.notes.take(k as int),
                self@.next_id == m.next_id,
                self@.autosave == m.autosave,
            decreases ids.len() - k,
        {
            let ghost c = self@;
            assert(c.notes[0] == m.notes[k as int]);
            proof {
                lemma_first_index_some(c.notes, has_id(ids@[k as int]));
                crate::text::lemma_first_index_none(c.notes, has_id(ids@[k as int]));
                assert((has_id(ids@[k as int]))(c.notes[0]));
            }
            self.delete_note_by_id(ids[k]);
            assert(find_note(c.notes, ids@[k as int]) == Some(0int));
            assert(c.notes.remove(0) =~= m.notes.skip(k + 1));
            assert(c.trash.push(c.notes[0]) =~= m.trash + m.notes.take(k + 1));
            k += 1;
        }
        assert(m.notes.skip(k as int) =~= Seq::<NoteView>::empty());
        assert(m.notes.take(k as int) =~= m.notes);
    }
}

}