//! Finding notes by title, tag and content.  Matching ignores case: both the
//! text and the query are lower-cased, and the query must occur in the text.
use vstd::prelude::*;
use crate::note::{Note, NoteView, Version, VersionView};
use crate::text::{chars_of, contains, contains_chars, lowercase_of, to_lowercase};

verus! {

/// Whether `q` occurs in `t`, ignoring case.
pub open spec fn matches_text(t: Seq<char>, q: Seq<char>) -> bool {
    contains(lowercase_of(t), lowercase_of(q))
}

pub open spec fn title_matches(n: NoteView, q: Seq<char>) -> bool {
    matches_text(n.title, q)
}

pub open spec fn tag_matches(n: NoteView, q: Seq<char>) -> bool {
    exists|k: int| 0 <= k < n.tags.len() && matches_text(#[trigger] n.tags[k], q)
}

pub open spec fn content_matches(n: NoteView, q: Seq<char>) -> bool {
    exists|k: int| 0 <= k < n.versions.len() && matches_text(#[trigger] n.versions[k].content, q)
}

pub open spec fn full_text_matches(n: NoteView, q: Seq<char>) -> bool {
    title_matches(n, q) || tag_matches(n, q) || content_matches(n, q)
}

/// The positions `0..len`.
pub open spec fn positions(len: nat) -> Seq<usize> {
    Seq::new(len, |i: int| i as usize)
}

pub open spec fn note_views_of(ns: Seq<Note>) -> Seq<NoteView> {
    ns.map_values(|n: Note| n@)
}

/// The positions of the notes that satisfy `p`, in order.
pub open spec fn positions_where(ns: Seq<NoteView>, p: spec_fn(NoteView) -> bool) -> Seq<usize> {
    positions(ns.len()).filter(|i: usize| p(ns[i as int]))
}

/// The position of the latest version whose content matches `q`.
pub open spec fn latest_match(vs: Seq<VersionView>, q: Seq<char>) -> Option<int>
    decreases vs.len(),
{
    if vs.len() == 0 {
        None
    } else if matches_text(vs.last().content, q) {
        Some(vs.len() - 1)
    } else {
        latest_match(vs.drop_last(), q)
    }
}

/// For each note with a matching version, in order: its position and its
/// latest matching version.
pub open spec fn content_results(ns: Seq<NoteView>, q: Seq<char>) -> Seq<(usize, VersionView)>
    decreases ns.len(),
{
    if ns.len() == 0 {
        seq![]
    } else {
        content_results(ns.drop_last(), q) + match latest_match(ns.last().versions, q) {
            Some(k) => seq![((ns.len() - 1) as usize, ns.last().versions[k])],
            None => seq![],
        }
    }
}

/// Whether lower-cased `text` holds the lower-cased query `q`.
fn text_matches(text: &str, q: &Vec<char>) -> (r: bool)
    ensures
        r == contains(lowercase_of(text@), q@),
{
    let l = to_lowercase(text);
    let lc = chars_of(l.as_str());
    contains_chars(&lc, q)
}

fn lowered_query(query: &str) -> (r: Vec<char>)
    ensures
        r@ == lowercase_of(query@),
{
    let q = to_lowercase(query);
    chars_of(q.as_str())
}

fn any_tag_matches(n: &Note, q: &Vec<char>, Ghost(query): Ghost<Seq<char>>) -> (r: bool)
    requires
        q@ == lowercase_of(query),
    ensures
        r == tag_matches(n@, query),
{
    let mut k: usize = 0;
    while k < n.tags.len()
        invariant
            k <= n.tags.len(),
            q@ == lowercase_of(query),
            forall|j: int| 0 <= j < k ==> !matches_text(#[trigger] n@.tags[j], query),
        decreases n.tags.len() - k,
    {
        if text_matches(n.tags[k].as_str(), q) {
            assert(matches_text(n@.tags[k as int], query));
            return true;
        }
        k += 1;
    }
    false
}

fn any_content_matches(n: &Note, q: &Vec<char>, Ghost(query): Ghost<Seq<char>>) -> (r: bool)
    requires
        q@ == lowercase_of(query),
    ensures
        r == content_matches(n@, query),
{
    let mut k: usize = 0;
    while k < n.versions.len()
        invariant
            k <= n.versions.len(),
            q@ == lowercase_of(query),
            forall|j: int| 0 <= j < k ==> !matches_text(#[trigger] n@.versions[j].content, query),
        decreases n.versions.len() - k,
    {
        if text_matches(n.versions[k].content.as_str(), q) {
            assert(matches_text(n@.versions[k as int].content, query));
            return true;
        }
        k += 1;
    }
    false
}

/// Notes with a version whose content holds `query`, ignoring case: each
/// with its position and its latest matching version.
pub fn search_by_content<'a>(notes: &'a [Note], query: &str) -> (r: Vec<(usize, &'a Version)>)
    ensures
        r@.map_values(|e: (usize, &Version)| (e.0, e.1@)) == content_results(note_views_of(notes@), query@),
{
    let q = lowered_query(query);
    let ghost ns = note_views_of(notes@);
    let mut results: Vec<(usize, &'a Version)> = Vec::new();
    let mut i: usize = 0;
    assert(ns.take(0) =~= Seq::<NoteView>::empty());
    while i < notes.len()
        invariant
            i <= notes.len(),
            ns == note_views_of(notes@),
            q@ == lowercase_of(query@),
            results@.map_values(|e: (usize, &Version)| (e.0, e.1@)) == content_results(ns.take(i as int), query@),
        decreases notes.len() - i,
    {
        let note = &notes[i];
        let ghost vs = note@.versions;
        let mut k: usize = note.versions.len();
        let mut found: Option<usize> = None;
        assert(vs.take(k as int) =~= vs);
        while k > 0
            invariant_except_break
                found is None,
                latest_match(vs, query@) == latest_match(vs.take(k as int), query@),
            invariant
                k <= note.versions.len(),
                vs == note@.versions,
                q@ == lowercase_of(query@),
            ensures
                found matches Some(j) ==> latest_match(vs, query@) == Some(j as int) && j < vs.len(),
                found is None ==> latest_match(vs.take(k as int), query@) == latest_match(vs, query@) && k == 0,
            decreases k,
        {
            assert(vs.take(k as int).drop_last() =~= vs.take(k - 1));
            assert(vs.take(k as int).last() == vs[k - 1]);
            if text_matches(note.versions[k - 1].content.as_str(), &q) {
                found = Some(k - 1);
                break;
            }
            k -= 1;
        }
        proof {
            if found is None {
                assert(vs.take(0) =~= Seq::<VersionView>::empty());
            }
        }
        let ghost before = results@.map_values(|e: (usize, &Version)| (e.0, e.1@));
        assert(ns.take(i + 1).drop_last() =~= ns.take(i as int));
        assert(ns.take(i + 1).last() == note@);
        match found {
            Some(j) => {
                assert(latest_match(vs, query@) == Some(j as int));
                results.push((i, &note.versions[j]));
                assert(results@.map_values(|e: (usize, &Version)| (e.0, e.1@)) =~= before + seq![(i, vs[j as int])]);
            },
            None => {
                assert(results@.map_values(|e: (usize, &Version)| (e.0, e.1@)) =~= before + Seq::<(usize, VersionView)>::empty());
            },
        }
        i += 1;
    }
    assert(ns.take(i as int) =~= ns);
    results
}


pub open spec fn by_title(q: Seq<char>) -> spec_fn(NoteView) -> bool {
    |n: NoteView| title_matches(n, q)
}

pub open spec fn by_tag(q: Seq<char>) -> spec_fn(NoteView) -> bool {
    |n: NoteView| tag_matches(n, q)
}

pub open spec fn by_full_text(q: Seq<char>) -> spec_fn(NoteView) -> bool {
    |n: NoteView| full_text_matches(n, q)
}

/// The notes whose tags hold `query`, ignoring case, by position.
pub fn search_by_tag(notes: &[Note], query: &str) -> (r: Vec<usize>)
    ensures
        r@ == positions_where(note_views_of(notes@), by_tag(query@)),
{
    let q = lowered_query(query);
    let ghost ns = note_views_of(notes@);
    let ghost ps = positions(ns.len());
    let ghost p = |i: usize| (by_tag(query@))(ns[i as int]);
    let mut out: Vec<usize> = Vec::new();
    let mut i: usize = 0;
    assert(ps.take(0) =~= Seq::<usize>::empty());
    while i < notes.len()
        invariant
            i <= notes.len(),
            ns == note_views_of(notes@),
            ps == positions(ns.len()),
            p == (|i: usize| (by_tag(query@))(ns[i as int])),
            q@ == lowercase_of(query@),
            out@ == ps.take(i as int).filter(p),
        decreases notes.len() - i,
    {
        reveal(Seq::filter);
        assert(ps.take(i + 1).drop_last() =~= ps.take(i as int));
        assert(ps.take(i + 1).last() == i);
        if any_tag_matches(&notes[i], &q, Ghost(query@)) {
            out.push(i);
        }
        i += 1;
    }
    assert(ps.take(i as int) =~= ps);
    out
}

/// The notes whose title holds `query`, ignoring case, by position.
pub fn search_by_title(notes: &[Note], query: &str) -> (r: Vec<usize>)
    ensures
        r@ == positions_where(note_views_of(notes@), by_title(query@)),
{
    let q = lowered_query(query);
    let ghost ns = note_views_of(notes@);
    let ghost ps = positions(ns.len());
    let ghost p = |i: usize| (by_title(query@))(ns[i as int]);
    let mut out: Vec<usize> = Vec::new();
    let mut i: usize = 0;
    assert(ps.take(0) =~= Seq::<usize>::empty());
    while i < notes.len()
        invariant
            i <= notes.len(),
            ns == note_views_of(notes@),
            ps == positions(ns.len()),
            p == (|i: usize| (by_title(query@))(ns[i as int])),
            q@ == lowercase_of(query@),
            out@ == ps.take(i as int).filter(p),
        decreases notes.len() - i,
    {
        reveal(Seq::filter);
        assert(ps.take(i + 1).drop_last() =~= ps.take(i as int));
        assert(ps.take(i + 1).last() == i);
        if text_matches(notes[i].title.as_str(), &q) {
            out.push(i);
        }
        i += 1;
    }
    assert(ps.take(i as int) =~= ps);
    out
}

/// The notes whose title, tags or any version holds `query`, ignoring
/// case, by position.
pub fn search_full_text(notes: &[Note], query: &str) -> (r: Vec<usize>)
    ensures
        r@ == positions_where(note_views_of(notes@), by_full_text(query@)),
{
    let q = lowered_query(query);
    let ghost ns = note_views_of(notes@);
    let ghost ps = positions(ns.len());
    let ghost p = |i: usize| (by_full_text(query@))(ns[i as int]);
    let mut out: Vec<usize> = Vec::new();
    let mut i: usize = 0;
    assert(ps.take(0) =~= Seq::<usize>::empty());
    while i < notes.len()
        invariant
            i <= notes.len(),
            ns == note_views_of(notes@),
            ps == positions(ns.len()),
            p == (|i: usize| (by_full_text(query@))(ns[i as int])),
            q@ == lowercase_of(query@),
            out@ == ps.take(i as int).filter(p),
        decreases notes.len() - i,
    {
        reveal(Seq::filter);
        assert(ps.take(i + 1).drop_last() =~= ps.take(i as int));
        assert(ps.take(i + 1).last() == i);
        if text_matches(notes[i].title.as_str(), &q) || any_tag_matches(&notes[i], &q, Ghost(query@))
            || any_content_matches(&notes[i], &q, Ghost(query@)) {
            out.push(i);
        }
        i += 1;
    }
    assert(ps.take(i as int) =~= ps);
    out
}

proof fn lemma_positions_where_contains(ns: Seq<NoteView>, p: spec_fn(NoteView) -> bool, i: usize)
    ensures
        positions_where(ns, p).contains(i) <==> (i < ns.len() && p(ns[i as int])),
{
    let ps = positions(ns.len());
    let f = |k: usize| p(ns[k as int]);
    broadcast use vstd::seq_lib::group_filter_ensures;
    if i < ns.len() && p(ns[i as int]) {
        assert(ps[i as int] == i);
        ps.lemma_filter_contains_rev(f, i);
    }
    if positions_where(ns, p).contains(i) {
        let k = choose|k: int| 0 <= k < ps.filter(f).len() && ps.filter(f)[k] == i;
        ps.lemma_filter_pred(f, k);
        lemma_filter_from(ps, f, k);
    }
}

/// What a filter keeps comes from the filtered sequence.
proof fn lemma_filter_from<T>(s: Seq<T>, p: spec_fn(T) -> bool, k: int)
    requires
        0 <= k < s.filter(p).len(),
    ensures
        s.contains(s.filter(p)[k]),
    decreases s.len(),
{
    reveal(Seq::filter);
    if s.len() > 0 {
        let d = s.drop_last();
        if k < d.filter(p).len() {
            lemma_filter_from(d, p, k);
            let j = choose|j: int| 0 <= j < d.len() && d[j] == d.filter(p)[k];
            assert(s[j] == d[j]);
        } else {
            assert(s[s.len() - 1] == s.last());
        }
    }
}

/// The positions that content search reports, in order.
pub open spec fn content_positions(ns: Seq<NoteView>, q: Seq<char>) -> Seq<usize> {
    content_results(ns, q).map_values(|e: (usize, VersionView)| e.0)
}

/// A sequence of positions in strictly ascending order (so without repeats).
pub open spec fn ascending(s: Seq<usize>) -> bool {
    forall|a: int, b: int| 0 <= a < b < s.len() ==> s[a] < s[b]
}

proof fn lemma_latest_match(vs: Seq<VersionView>, q: Seq<char>)
    ensures
        latest_match(vs, q) is Some <==> exists|k: int| 0 <= k < vs.len() && matches_text(#[trigger] vs[k].content, q),
    decreases vs.len(),
{
    if vs.len() > 0 {
        let d = vs.drop_last();
        lemma_latest_match(d, q);
        if exists|k: int| 0 <= k < d.len() && matches_text(#[trigger] d[k].content, q) {
            let k = choose|k: int| 0 <= k < d.len() && matches_text(#[trigger] d[k].content, q);
            assert(vs[k] == d[k]);
        }
        if exists|k: int| 0 <= k < vs.len() && matches_text(#[trigger] vs[k].content, q) {
            let k = choose|k: int| 0 <= k < vs.len() && matches_text(#[trigger] vs[k].content, q);
            if k < vs.len() - 1 {
                assert(d[k] == vs[k]);
            }
        }
    }
}

proof fn lemma_content_positions(ns: Seq<NoteView>, q: Seq<char>)
    requires
        ns.len() <= usize::MAX,
    ensures
        forall|k: int| 0 <= k < content_positions(ns, q).len() ==> #[trigger] content_positions(ns, q)[k] < ns.len(),
        ascending(content_positions(ns, q)),
        forall|i: usize|
            #![trigger content_positions(ns, q).contains(i)]
            content_positions(ns, q).contains(i) <==> (i < ns.len() && content_matches(ns[i as int], q)),
    decreases ns.len(),
{
    let c = content_positions(ns, q);
    if ns.len() > 0 {
        let d = ns.drop_last();
        lemma_content_positions(d, q);
        let cd = content_positions(d, q);
        lemma_latest_match(ns.last().versions, q);
        let tail = match latest_match(ns.last().versions, q) {
            Some(k) => seq![((ns.len() - 1) as usize, ns.last().versions[k])],
            None => Seq::<(usize, VersionView)>::empty(),
        };
        assert(content_results(ns, q) == content_results(d, q) + tail);
        let tp = tail.map_values(|e: (usize, VersionView)| e.0);
        assert(c =~= cd + tp);
        assert forall|i: usize| #![trigger c.contains(i)] c.contains(i) <==> (i < ns.len() && content_matches(ns[i as int], q)) by {
            if c.contains(i) {
                let k = choose|k: int| 0 <= k < c.len() && c[k] == i;
                if k < cd.len() {
                    assert(cd.contains(i));
                    assert(ns[i as int] == d[i as int]);
                }
            }
            if i < ns.len() && content_matches(ns[i as int], q) {
                if i < d.len() {
                    assert(ns[i as int] == d[i as int]);
                    assert(cd.contains(i));
                    let k = choose|k: int| 0 <= k < cd.len() && cd[k] == i;
                    assert(c[k] == i);
                } else {
                    assert(c[cd.len() as int] == i);
                }
            }
        }
    } else {
        assert(c =~= Seq::<usize>::empty());
    }
}

proof fn lemma_filter_ascending(s: Seq<usize>, p: spec_fn(usize) -> bool)
    requires
        ascending(s),
    ensures
        ascending(s.filter(p)),
    decreases s.len(),
{
    reveal(Seq::filter);
    if s.len() > 0 {
        let d = s.drop_last();
        assert(ascending(d));
        lemma_filter_ascending(d, p);
        let f = s.filter(p);
        if p(s.last()) {
            assert forall|a: int, b: int| 0 <= a < b < f.len() implies f[a] < f[b] by {
                if b == f.len() - 1 {
                    lemma_filter_from(d, p, a);
                    let j = choose|j: int| 0 <= j < d.len() && d[j] == d.filter(p)[a];
                    assert(s[j] == d[j]);
                }
            }
        }
    }
}

proof fn lemma_positions_where_ascending(ns: Seq<NoteView>, p: spec_fn(NoteView) -> bool)
    requires
        ns.len() <= usize::MAX,
    ensures
        ascending(positions_where(ns, p)),
{
    let ps = positions(ns.len());
    assert(ascending(ps));
    lemma_filter_ascending(ps, |k: usize| p(ns[k as int]));
}

/// Full-text search finds exactly the notes that the title, tag or content
/// search finds: its positions are the union of theirs, in ascending order
/// without repeats.
pub proof fn law_full_text_is_union(ns: Seq<NoteView>, q: Seq<char>, i: usize)
    requires
        ns.len() <= usize::MAX,
    ensures
        ascending(positions_where(ns, by_full_text(q))),
        positions_where(ns, by_full_text(q)).contains(i) <==> (positions_where(ns, by_title(q)).contains(i)
            || positions_where(ns, by_tag(q)).contains(i) || content_positions(ns, q).contains(i)),
{
    lemma_positions_where_contains(ns, by_full_text(q), i);
    lemma_positions_where_contains(ns, by_title(q), i);
    lemma_positions_where_contains(ns, by_tag(q), i);
    lemma_content_positions(ns, q);
    lemma_positions_where_ascending(ns, by_full_text(q));
}

}
