//! The figures that the statistics dashboard shows.
use vstd::prelude::*;
use crate::manager::{due_at, NoteManager};
use crate::note::{latest_char_count_of, total_words_of, NoteView};
use crate::text::str_eq;

verus! {

pub open spec fn version_total(ns: Seq<NoteView>) -> nat
    decreases ns.len(),
{
    if ns.len() == 0 { 0 } else { version_total(ns.drop_last()) + ns.last().versions.len() }
}

pub open spec fn word_total(ns: Seq<NoteView>) -> nat
    decreases ns.len(),
{
    if ns.len() == 0 { 0 } else { word_total(ns.drop_last()) + total_words_of(ns.last().versions) }
}

pub open spec fn latest_char_total(ns: Seq<NoteView>) -> nat
    decreases ns.len(),
{
    if ns.len() == 0 { 0 } else { latest_char_total(ns.drop_last()) + latest_char_count_of(ns.last().versions) }
}

/// Every tag of every note, in order.
pub open spec fn all_tags(ns: Seq<NoteView>) -> Seq<Seq<char>>
    decreases ns.len(),
{
    if ns.len() == 0 { seq![] } else { all_tags(ns.drop_last()) + ns.last().tags }
}

pub open spec fn is_pinned() -> spec_fn(NoteView) -> bool {
    |n: NoteView| n.pinned
}

/// The position of the last note with the greatest `key`, as
/// `Iterator::max_by_key` picks it.
pub open spec fn last_max_by(ns: Seq<NoteView>, key: spec_fn(NoteView) -> nat) -> Option<int>
    decreases ns.len(),
{
    if ns.len() == 0 {
        None
    } else {
        match last_max_by(ns.drop_last(), key) {
            Some(j) => if key(ns.last()) >= key(ns[j]) { Some(ns.len() - 1) } else { Some(j) },
            None => Some(ns.len() - 1),
        }
    }
}

pub open spec fn version_count_key() -> spec_fn(NoteView) -> nat {
    |n: NoteView| n.versions.len()
}

pub open spec fn word_count_key() -> spec_fn(NoteView) -> nat {
    |n: NoteView| total_words_of(n.versions)
}

pub open spec fn keyed(tag: Seq<char>) -> spec_fn((Seq<char>, nat)) -> bool {
    |e: (Seq<char>, nat)| e.0 == tag
}

/// The distinct tags in order of first appearance, each with how often it
/// appears.
pub open spec fn tally(tags: Seq<Seq<char>>) -> Seq<(Seq<char>, nat)>
    decreases tags.len(),
{
    if tags.len() == 0 {
        seq![]
    } else {
        let t = tally(tags.drop_last());
        let tag = tags.last();
        match crate::text::first_index(t, keyed(tag)) {
            Some(k) => t.update(k, (tag, t[k].1 + 1)),
            None => t.push((tag, 1)),
        }
    }
}

/// Where an entry with count `c` goes so that it follows every entry whose
/// count is not smaller.
pub open spec fn desc_insertion_point(s: Seq<(Seq<char>, nat)>, c: nat) -> int
    decreases s.len(),
{
    if s.len() == 0 {
        0
    } else if s.last().1 >= c {
        s.len() as int
    } else {
        desc_insertion_point(s.drop_last(), c)
    }
}

/// The entries ordered by count, largest first, equal counts in their order:
/// what a stable sort by descending count gives.
pub open spec fn sort_by_count_desc(s: Seq<(Seq<char>, nat)>) -> Seq<(Seq<char>, nat)>
    decreases s.len(),
{
    if s.len() == 0 {
        seq![]
    } else {
        let r = sort_by_count_desc(s.drop_last());
        r.insert(desc_insertion_point(r, s.last().1), s.last())
    }
}

/// Whether the dashboard's sums fit in a `usize`.
pub open spec fn totals_fit(ns: Seq<NoteView>) -> bool {
    &&& version_total(ns) <= usize::MAX
    &&& word_total(ns) <= usize::MAX
    &&& latest_char_total(ns) <= usize::MAX
    &&& all_tags(ns).len() <= usize::MAX
}

/// The dashboard's figures.
pub struct DashboardStats {
    pub total_notes: usize,
    pub total_versions: usize,
    pub pinned: usize,
    pub total_words: usize,
    pub total_chars: usize,
    pub due_reminders: usize,
    pub trash_count: usize,
    /// The note with the most versions (the last of equals).
    pub most_versioned: Option<usize>,
    /// The note with the most words (the last of equals).
    pub most_words: Option<usize>,
    /// Each tag with how many notes carry it, most frequent first.
    pub tag_counts: Vec<(String, usize)>,
}

pub open spec fn tag_count_views(v: Seq<(String, usize)>) -> Seq<(Seq<char>, nat)> {
    v.map_values(|e: (String, usize)| (e.0@, e.1 as nat))
}

pub open spec fn stats_match(s: DashboardStats, m: crate::manager::ManagerView, now: u64) -> bool {
    &&& s.total_notes == m.notes.len()
    &&& s.total_versions == version_total(m.notes)
    &&& s.pinned == m.notes.filter(is_pinned()).len()
    &&& s.total_words == word_total(m.notes)
    &&& s.total_chars == latest_char_total(m.notes)
    &&& s.due_reminders == m.notes.filter(due_at(now)).len()
    &&& s.trash_count == m.trash.len()
    &&& match s.most_versioned {
        Some(k) => last_max_by(m.notes, version_count_key()) == Some(k as int),
        None => last_max_by(m.notes, version_count_key()) is None,
    }
    &&& match s.most_words {
        Some(k) => last_max_by(m.notes, word_count_key()) == Some(k as int),
        None => last_max_by(m.notes, word_count_key()) is None,
    }
    &&& tag_count_views(s.tag_counts@) == sort_by_count_desc(tally(all_tags(m.notes)))
}


proof fn lemma_totals_prefix(ns: Seq<NoteView>, i: int)
    requires
        0 <= i <= ns.len(),
    ensures
        version_total(ns.take(i)) <= version_total(ns),
        word_total(ns.take(i)) <= word_total(ns),
        latest_char_total(ns.take(i)) <= latest_char_total(ns),
        all_tags(ns.take(i)).len() <= all_tags(ns).len(),
    decreases ns.len() - i,
{
    if i < ns.len() {
        lemma_totals_prefix(ns, i + 1);
        assert(ns.take(i + 1).drop_last() =~= ns.take(i));
    } else {
        assert(ns.take(i) =~= ns);
    }
}

fn find_tag(counts: &Vec<(String, usize)>, tag: &String) -> (r: Option<usize>)
    ensures
        match r {
            Some(k) => crate::text::first_index(tag_count_views(counts@), keyed(tag@))
                == Some(k as int) && k < counts.len(),
            None => crate::text::first_index(tag_count_views(counts@), keyed(tag@)) is None,
        },
{
    let ghost cv = tag_count_views(counts@);
    let ghost p = keyed(tag@);
    let mut k: usize = 0;
    while k < counts.len()
        invariant
            k <= counts.len(),
            cv == tag_count_views(counts@),
            p == keyed(tag@),
            crate::text::first_index(cv.take(k as int), p) is None,
        decreases counts.len() - k,
    {
        proof {
            crate::text::lemma_first_index_step(cv, p, k as int);
        }
        if str_eq(counts[k].0.as_str(), tag.as_str()) {
            proof {
                crate::text::lemma_first_index_prefix(cv, p, k + 1);
            }
            return Some(k);
        }
        k += 1;
    }
    proof {
        crate::text::lemma_first_index_prefix(cv, p, k as int);
    }
    None
}

fn tally_tags(nm: &NoteManager) -> (r: Vec<(String, usize)>)
    requires
        all_tags(nm@.notes).len() <= usize::MAX,
    ensures
        tag_count_views(r@) == tally(all_tags(nm@.notes)),
{
    let ghost ns = nm@.notes;
    let mut counts: Vec<(String, usize)> = Vec::new();
    let mut i: usize = 0;
    assert(ns.take(0) =~= Seq::<NoteView>::empty());
    while i < nm.notes.len()
        invariant
            i <= nm.notes.len(),
            ns == nm@.notes,
            all_tags(ns).len() <= usize::MAX,
            tag_count_views(counts@) == tally(all_tags(ns.take(i as int))),
            forall|k: int| 0 <= k < counts.len() ==> (#[trigger] counts@[k]).1 <= all_tags(ns.take(i as int)).len(),
        decreases nm.notes.len() - i,
    {
        let ghost base = all_tags(ns.take(i as int));
        proof {
            lemma_totals_prefix(ns, i + 1);
            assert(ns.take(i + 1).drop_last() =~= ns.take(i as int));
            assert(ns.take(i + 1).last() == ns[i as int]);
        }
        let note = &nm.notes[i];
        let ghost tags = note@.tags;
        let mut j: usize = 0;
        assert(base + tags.take(0) =~= base);
        while j < note.tags.len()
            invariant
                j <= note.tags.len(),
                tags == note@.tags,
                base.len() + tags.len() <= usize::MAX,
                tag_count_views(counts@) == tally(base + tags.take(j as int)),
                forall|k: int| 0 <= k < counts.len() ==> (#[trigger] counts@[k]).1 <= base.len() + j,
            decreases note.tags.len() - j,
        {
            let ghost seen = base + tags.take(j as int);
            let ghost cv = tag_count_views(counts@);
            assert((base + tags.take(j + 1)).drop_last() =~= seen);
            assert((base + tags.take(j + 1)).last() == tags[j as int]);
            let tag = &note.tags[j];
            match find_tag(&counts, tag) {
                Some(k) => {
                    proof {
                        crate::text::lemma_first_index_some(cv, keyed(tag@));
                    }
                    let c = counts[k].1;
                    let t = counts[k].0.clone();
                    counts.set(k, (t, c + 1));
                    assert(tag_count_views(counts@) =~= cv.update(k as int, (tags[j as int], cv[k as int].1 + 1)));
                },
                None => {
                    let t = tag.clone();
                    counts.push((t, 1));
                    assert(tag_count_views(counts@) =~= cv.push((tags[j as int], 1)));
                },
            }
            j += 1;
        }
        assert(base + tags.take(j as int) =~= all_tags(ns.take(i + 1)));
        i += 1;
    }
    assert(ns.take(i as int) =~= ns);
    counts
}

fn sort_counts_desc(v: Vec<(String, usize)>) -> (r: Vec<(String, usize)>)
    ensures
        tag_count_views(r@) == sort_by_count_desc(tag_count_views(v@)),
{
    let ghost orig = tag_count_views(v@);
    let mut rest = v;
    let mut out: Vec<(String, usize)> = Vec::new();
    let ghost mut k: int = 0;
    assert(orig.take(0) =~= Seq::<(Seq<char>, nat)>::empty());
    assert(tag_count_views(out@) =~= Seq::<(Seq<char>, nat)>::empty());
    while rest.len() > 0
        invariant
            0 <= k <= orig.len(),
            tag_count_views(rest@) == orig.skip(k),
            tag_count_views(out@) == sort_by_count_desc(orig.take(k)),
        decreases rest.len(),
    {
        let ghost before = tag_count_views(rest@);
        assert(before.len() == rest@.len());
        let x = rest.remove(0);
        assert(k < orig.len());
        assert(before[0] == orig[k]);
        assert(tag_count_views(rest@) =~= before.subrange(1, before.len() as int));
        assert(tag_count_views(rest@) =~= orig.skip(k + 1));
        let ghost outv = tag_count_views(out@);
        let mut j: usize = out.len();
        assert(outv.take(j as int) =~= outv);
        while j > 0 && out[j - 1].1 < x.1
            invariant
                j <= out.len(),
                outv == tag_count_views(out@),
                desc_insertion_point(outv, x.1 as nat) == desc_insertion_point(outv.take(j as int), x.1 as nat),
            decreases j,
        {
            assert(outv.take(j as int).drop_last() =~= outv.take(j - 1));
            j -= 1;
        }
        assert(desc_insertion_point(outv, x.1 as nat) == j);
        let ghost xv = (x.0@, x.1 as nat);
        out.insert(j, x);
        assert(orig.take(k + 1).drop_last() =~= orig.take(k));
        assert(orig.take(k + 1).last() == xv);
        assert(tag_count_views(out@) =~= outv.insert(j as int, xv));
        proof {
            k = k + 1;
        }
    }
    assert(orig.take(k) =~= orig);
    out
}

/// The dashboard's figures, with reminders counted as due by `now`.
pub fn dashboard_stats_at(nm: &NoteManager, now: u64) -> (r: DashboardStats)
    requires
        totals_fit(nm@.notes),
    ensures
        stats_match(r, nm@, now),
{
    reveal(Seq::filter);
    let ghost ns = nm@.notes;
    let mut total_versions: usize = 0;
    let mut pinned: usize = 0;
    let mut total_words: usize = 0;
    let mut total_chars: usize = 0;
    let mut due: usize = 0;
    let mut most_versioned: Option<usize> = None;
    let mut most_words: Option<usize> = None;
    let mut mv_key: usize = 0;
    let mut mw_key: usize = 0;
    let mut i: usize = 0;
    assert(ns.take(0) =~= Seq::<NoteView>::empty());
    while i < nm.notes.len()
        invariant
            i <= nm.notes.len(),
            ns == nm@.notes,
            totals_fit(ns),
            total_versions == version_total(ns.take(i as int)),
            total_words == word_total(ns.take(i as int)),
            total_chars == latest_char_total(ns.take(i as int)),
            pinned == ns.take(i as int).filter(is_pinned()).len(),
            due == ns.take(i as int).filter(due_at(now)).len(),
            pinned <= i,
            due <= i,
            match most_versioned {
                Some(k) => last_max_by(ns.take(i as int), version_count_key()) == Some(k as int),
                None => last_max_by(ns.take(i as int), version_count_key()) is None,
            },
            match most_words {
                Some(k) => last_max_by(ns.take(i as int), word_count_key()) == Some(k as int),
                None => last_max_by(ns.take(i as int), word_count_key()) is None,
            },
            most_versioned matches Some(k) ==> k < i && mv_key == ns[k as int].versions.len(),
            most_words matches Some(k) ==> k < i && mw_key == total_words_of(ns[k as int].versions),
        decreases nm.notes.len() - i,
    {
        reveal(Seq::filter);
        let ghost t = ns.take(i + 1);
        proof {
            lemma_totals_prefix(ns, i + 1);
            assert(t.drop_last() =~= ns.take(i as int));
            assert(t.last() == ns[i as int]);
            assert(total_words_of(ns[i as int].versions) <= word_total(t));
        }
        let note = &nm.notes[i];
        let vc = note.versions.len();
        let wc = note.total_words();
        let cc = note.latest_char_count();
        total_versions = total_versions + vc;
        total_words = total_words + wc;
        total_chars = total_chars + cc;
        if note.pinned {
            pinned = pinned + 1;
        }
        if note.is_reminder_due_at(now) {
            due = due + 1;
        }
        assert((version_count_key())(t.last()) == vc);
        assert((word_count_key())(t.last()) == wc);
        match most_versioned {
            Some(k) => {
                assert(t[k as int] == ns[k as int]);
                assert((version_count_key())(t[k as int]) == mv_key);
                assert(last_max_by(t.drop_last(), version_count_key()) == Some(k as int));
                if vc >= mv_key {
                    most_versioned = Some(i);
                    mv_key = vc;
                    assert(last_max_by(t, version_count_key()) == Some(i as int));
                } else {
                    assert(last_max_by(t, version_count_key()) == Some(k as int));
                }
            },
            None => {
                most_versioned = Some(i);
                mv_key = vc;
                assert(last_max_by(t, version_count_key()) == Some(i as int));
            },
        }
        match most_words {
            Some(k) => {
                assert(t[k as int] == ns[k as int]);
                assert((word_count_key())(t[k as int]) == mw_key);
                assert(last_max_by(t.drop_last(), word_count_key()) == Some(k as int));
                if wc >= mw_key {
                    most_words = Some(i);
                    mw_key = wc;
                    assert(last_max_by(t, word_count_key()) == Some(i as int));
                } else {
                    assert(last_max_by(t, word_count_key()) == Some(k as int));
                }
            },
            None => {
                most_words = Some(i);
                mw_key = wc;
                assert(last_max_by(t, word_count_key()) == Some(i as int));
            },
        }
        i += 1;
    }
    assert(ns.take(i as int) =~= ns);
    let counts = tally_tags(nm);
    let tag_counts = sort_counts_desc(counts);
    DashboardStats {
        total_notes: nm.notes.len(),
        total_versions,
        pinned,
        total_words,
        total_chars,
        due_reminders: due,
        trash_count: nm.trash.len(),
        most_versioned,
        most_words,
        tag_counts,
    }
}

/// The dashboard's figures, with reminders counted as due by the current time.
pub fn dashboard_stats(nm: &NoteManager) -> (r: DashboardStats)
    requires
        totals_fit(nm@.notes),
    ensures
        exists|now: u64| #[trigger] stats_match(r, nm@, now),
{
    let now = crate::clock::now_timestamp();
    dashboard_stats_at(nm, now)
}


/// Whether the dashboard's sums fit in a `usize`, so that the figures can be
/// computed.
pub fn totals_fit_check(nm: &NoteManager) -> (r: bool)
    ensures
        r == totals_fit(nm@.notes),
{
    let ghost ns = nm@.notes;
    let mut versions: usize = 0;
    let mut words: usize = 0;
    let mut chars: usize = 0;
    let mut tags: usize = 0;
    let mut i: usize = 0;
    assert(ns.take(0) =~= Seq::<NoteView>::empty());
    while i < nm.notes.len()
        invariant
            i <= nm.notes.len(),
            ns == nm@.notes,
            versions == version_total(ns.take(i as int)),
            words == word_total(ns.take(i as int)),
            chars == latest_char_total(ns.take(i as int)),
            tags == all_tags(ns.take(i as int)).len(),
        decreases nm.notes.len() - i,
    {
        let ghost t = ns.take(i + 1);
        proof {
            lemma_totals_prefix(ns, i + 1);
            assert(t.drop_last() =~= ns.take(i as int));
            assert(t.last() == ns[i as int]);
        }
        let note = &nm.notes[i];
        // words of this note, stopping at the first sum that does not fit
        let mut nw: usize = 0;
        let mut k: usize = 0;
        let ghost vs = note@.versions;
        assert(vs.take(0) =~= Seq::<crate::note::VersionView>::empty());
        assert(total_words_of(vs) <= word_total(ns));
        while k < note.versions.len()
            invariant
                k <= note.versions.len(),
                vs == note@.versions,
                total_words_of(vs) <= word_total(ns),
                ns == nm@.notes,
                nw == total_words_of(vs.take(k as int)),
            decreases note.versions.len() - k,
        {
            assert(vs.take(k + 1).drop_last() =~= vs.take(k as int));
            let wc = note.versions[k].word_count();
            if nw > usize::MAX - wc {
                proof {
                    lemma_note_words_prefix(vs, k + 1);
                }
                return false;
            }
            nw = nw + wc;
            k += 1;
        }
        assert(vs.take(k as int) =~= vs);
        let vc = note.versions.len();
        let cc = note.latest_char_count();
        let tc = note.tags.len();
        if versions > usize::MAX - vc || words > usize::MAX - nw || chars > usize::MAX - cc || tags > usize::MAX
            - tc {
            return false;
        }
        versions = versions + vc;
        words = words + nw;
        chars = chars + cc;
        tags = tags + tc;
        i += 1;
    }
    assert(ns.take(i as int) =~= ns);
    true
}

proof fn lemma_note_words_prefix(vs: Seq<crate::note::VersionView>, k: int)
    requires
        0 <= k <= vs.len(),
    ensures
        total_words_of(vs.take(k)) <= total_words_of(vs),
    decreases vs.len() - k,
{
    if k < vs.len() {
        lemma_note_words_prefix(vs, k + 1);
        assert(vs.take(k + 1).drop_last() =~= vs.take(k));
    } else {
        assert(vs.take(k) =~= vs);
    }
}


// ---------------------------------------------------------------------------
// What the tag list means
// ---------------------------------------------------------------------------

/// Entries ordered by count, largest first.
pub open spec fn counts_descending(s: Seq<(Seq<char>, nat)>) -> bool {
    forall|a: int, b: int| 0 <= a < b < s.len() ==> s[a].1 >= s[b].1
}

proof fn lemma_insertion_point(s: Seq<(Seq<char>, nat)>, c: nat)
    ensures
        0 <= desc_insertion_point(s, c) <= s.len(),
        desc_insertion_point(s, c) > 0 ==> s[desc_insertion_point(s, c) - 1].1 >= c,
        forall|j: int| desc_insertion_point(s, c) <= j < s.len() ==> #[trigger] s[j].1 < c,
    decreases s.len(),
{
    if s.len() > 0 && s.last().1 < c {
        let d = s.drop_last();
        lemma_insertion_point(d, c);
        assert forall|j: int| desc_insertion_point(s, c) <= j < s.len() implies #[trigger] s[j].1 < c by {
            if j < d.len() {
                assert(s[j] == d[j]);
            }
        }
    }
}

proof fn lemma_sort_desc(s: Seq<(Seq<char>, nat)>)
    ensures
        counts_descending(sort_by_count_desc(s)),
        sort_by_count_desc(s).to_multiset() == s.to_multiset(),
    decreases s.len(),
{
    broadcast use vstd::seq_lib::group_to_multiset_ensures;
    if s.len() > 0 {
        let d = s.drop_last();
        lemma_sort_desc(d);
        let r = sort_by_count_desc(d);
        let x = s.last();
        let p = desc_insertion_point(r, x.1);
        lemma_insertion_point(r, x.1);
        let r2 = r.insert(p, x);
        assert(r2 == sort_by_count_desc(s));
        assert forall|a: int, b: int| 0 <= a < b < r2.len() implies r2[a].1 >= r2[b].1 by {
            if b < p {
                assert(r2[a] == r[a] && r2[b] == r[b]);
            } else if b == p {
                assert(r2[a] == r[a]);
                assert(r[a].1 >= r[p - 1].1);
            } else if a < p {
                assert(r2[a] == r[a] && r2[b] == r[b - 1]);
            } else if a == p {
                assert(r2[b] == r[b - 1]);
                assert(r[b - 1].1 < x.1);
            } else {
                assert(r2[a] == r[a - 1] && r2[b] == r[b - 1]);
            }
        }
        assert(d.push(x) =~= s);
    }
}

proof fn lemma_tally(tags: Seq<Seq<char>>)
    ensures
        forall|i: int, j: int| 0 <= i < j < tally(tags).len() ==> (#[trigger] tally(tags)[i]).0 != (#[trigger] tally(tags)[j]).0,
        forall|k: int|
            0 <= k < tally(tags).len() ==> (#[trigger] tally(tags)[k]).1 == tags.to_multiset().count(tally(tags)[k].0)
                && tally(tags)[k].1 >= 1,
        forall|i: int| 0 <= i < tags.len() ==> exists|k: int| 0 <= k < tally(tags).len() && (#[trigger] tally(tags)[k]).0 == #[trigger] tags[i],
    decreases tags.len(),
{
    broadcast use vstd::seq_lib::group_to_multiset_ensures;
    broadcast use vstd::multiset::group_multiset_axioms;
    if tags.len() > 0 {
        let prev = tags.drop_last();
        lemma_tally(prev);
        let t = tally(prev);
        let tag = tags.last();
        assert(prev.push(tag) =~= tags);
        assert(tags.to_multiset() == prev.to_multiset().insert(tag));
        let nt = tally(tags);
        crate::text::lemma_first_index_some(t, keyed(tag));
        crate::text::lemma_first_index_none(t, keyed(tag));
        match crate::text::first_index(t, keyed(tag)) {
            Some(k) => {
                assert(t[k].0 == tag);
                assert(nt == t.update(k, (tag, t[k].1 + 1)));
                assert forall|i: int| 0 <= i < tags.len() implies exists|m: int| 0 <= m < nt.len() && (#[trigger] nt[m]).0 == #[trigger] tags[i] by {
                    if i < prev.len() {
                        assert(tags[i] == prev[i]);
                        let m = choose|m: int| 0 <= m < t.len() && (#[trigger] t[m]).0 == prev[i];
                        assert(nt[m].0 == t[m].0);
                    } else {
                        assert(nt[k].0 == tags[i]);
                    }
                }
            },
            None => {
                assert(nt == t.push((tag, 1nat)));
                assert(!prev.contains(tag)) by {
                    if prev.contains(tag) {
                        let i = choose|i: int| 0 <= i < prev.len() && prev[i] == tag;
                        let m = choose|m: int| 0 <= m < t.len() && (#[trigger] t[m]).0 == prev[i];
                        assert(!(keyed(tag))(t[m]));
                    }
                }
                assert(prev.to_multiset().count(tag) == 0);
                assert forall|k: int| 0 <= k < t.len() implies (#[trigger] t[k]).0 != tag by {
                    assert(!(keyed(tag))(t[k]));
                }
                assert forall|i: int| 0 <= i < tags.len() implies exists|m: int| 0 <= m < nt.len() && (#[trigger] nt[m]).0 == #[trigger] tags[i] by {
                    if i < prev.len() {
                        assert(tags[i] == prev[i]);
                        let m = choose|m: int| 0 <= m < t.len() && (#[trigger] t[m]).0 == prev[i];
                        assert(nt[m] == t[m]);
                    } else {
                        assert(nt[t.len() as int].0 == tags[i]);
                    }
                }
            },
        }
    }
}

/// The dashboard's tag list, built from all the tags, lists tags most
/// frequent first; it holds the same entries as the tally of the tags, in
/// which every tag occurs once with the number of times it occurs among
/// the tags.
pub proof fn law_tag_counts_by_frequency(tags: Seq<Seq<char>>)
    ensures
        ({
            let r = sort_by_count_desc(tally(tags));
            let t = tally(tags);
            &&& forall|a: int, b: int| 0 <= a < b < r.len() ==> r[a].1 >= r[b].1
            &&& r.to_multiset() == t.to_multiset()
            &&& forall|k: int|
                0 <= k < r.len() ==> (#[trigger] r[k]).1 == tags.to_multiset().count(r[k].0) && r[k].1 >= 1
            &&& forall|i: int| 0 <= i < tags.len() ==> exists|k: int| 0 <= k < r.len() && (#[trigger] r[k]).0 == #[trigger] tags[i]
            &&& forall|i: int, j: int| 0 <= i < j < t.len() ==> (#[trigger] t[i]).0 != (#[trigger] t[j]).0
        }),
{
    broadcast use vstd::seq_lib::group_to_multiset_ensures;
    let t = tally(tags);
    let r = sort_by_count_desc(t);
    lemma_sort_desc(t);
    lemma_tally(tags);
    assert forall|k: int| 0 <= k < r.len() implies (#[trigger] r[k]).1 == tags.to_multiset().count(r[k].0) && r[k].1 >= 1 by {
        assert(r.contains(r[k]));
        assert(r.to_multiset().count(r[k]) > 0);
        assert(t.contains(r[k]));
        let j = choose|j: int| 0 <= j < t.len() && t[j] == r[k];
        assert(t[j].1 == tags.to_multiset().count(t[j].0));
    }
    assert forall|i: int| 0 <= i < tags.len() implies exists|k: int| 0 <= k < r.len() && (#[trigger] r[k]).0 == #[trigger] tags[i] by {
        let j = choose|j: int| 0 <= j < t.len() && (#[trigger] t[j]).0 == tags[i];
        assert(t.contains(t[j]));
        assert(t.to_multiset().count(t[j]) > 0);
        assert(r.contains(t[j]));
        let k = choose|k: int| 0 <= k < r.len() && r[k] == t[j];
        assert(r[k].0 == tags[i]);
    }
}

}
