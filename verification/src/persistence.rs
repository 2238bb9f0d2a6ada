//! What saving and reading back preserve: the notes that the storage text
//! of a manager is read into are the manager's notes, for every note whose
//! fields the line format can carry.
use vstd::prelude::*;
use crate::manager::{empty_manager, ManagerView};
use crate::note::{color_name, numbered_in_order, NoteColor, NoteView, VersionView};
use crate::storage::{
    bool_text, decimal_u32, field, header_extras, header_head, header_line, header_note, header_parts,
    header_times, links_text, load_line, load_lines, loaded, note_record, parsed_id, parsed_links,
    password_text, reminder_text, storage_text_of, version_fields, version_record,
};
use crate::text::{
    all_digits, concat, contains, decimal, digit_char, digits_value, find_or_len, first_index, is_char,
    is_digit, is_ws, join, lines, occurs_at, parse_u32_spec, parse_u64_spec, split_on, starts_with,
    strip_all_prefix, strip_cr, strip_prefix, trim, trim_end, trim_start, unsigned_body,
};

verus! {

// ---------------------------------------------------------------------------
// Splitting text that is built piece by piece
// ---------------------------------------------------------------------------

/// `s` holds no `c`.
pub open spec fn free_of(s: Seq<char>, c: char) -> bool {
    forall|i: int| 0 <= i < s.len() ==> #[trigger] s[i] != c
}

/// Appending text without `c` extends the last piece of the split.
proof fn lemma_split_append(s: Seq<char>, t: Seq<char>, c: char)
    requires
        free_of(t, c),
    ensures
        split_on(s + t, c) == ({
            let p = split_on(s, c);
            p.update(p.len() - 1, p.last() + t)
        }),
    decreases t.len(),
{
    crate::text::lemma_split_on_len(s, c);
    if t.len() == 0 {
        assert(s + t =~= s);
        let p = split_on(s, c);
        assert(p.last() + t =~= p.last());
        assert(p.update(p.len() - 1, p.last() + t) =~= p);
    } else {
        let t0 = t.drop_last();
        assert(free_of(t0, c));
        lemma_split_append(s, t0, c);
        assert((s + t).drop_last() =~= s + t0);
        assert((s + t).last() == t.last());
        let p = split_on(s, c);
        let q = p.update(p.len() - 1, p.last() + t0);
        assert(q.last().push(t.last()) =~= p.last() + t);
        assert(q.update(q.len() - 1, q.last().push(t.last())) =~= p.update(p.len() - 1, p.last() + t));
    }
}

/// A separator followed by text without it adds one piece.
proof fn lemma_split_sep_append(s: Seq<char>, t: Seq<char>, c: char)
    requires
        free_of(t, c),
    ensures
        split_on(s + seq![c] + t, c) == split_on(s, c).push(t),
{
    let sc = s + seq![c];
    assert(sc.drop_last() =~= s);
    assert(split_on(sc, c) == split_on(s, c).push(seq![]));
    lemma_split_append(sc, t, c);
    let p = split_on(s, c).push(Seq::<char>::empty());
    assert(p.last() + t =~= t);
    assert(p.update(p.len() - 1, t) =~= split_on(s, c).push(t));
}

/// Text without `c` is one piece.
proof fn lemma_split_single(t: Seq<char>, c: char)
    requires
        free_of(t, c),
    ensures
        split_on(t, c) == seq![t],
{
    let e = Seq::<char>::empty();
    lemma_split_append(e, t, c);
    assert(e + t =~= t);
    assert(seq![e].update(0, e + t) =~= seq![t]);
}

// ---------------------------------------------------------------------------
// Concatenation and line endings
// ---------------------------------------------------------------------------

pub proof fn lemma_concat_add(a: Seq<Seq<char>>, b: Seq<Seq<char>>)
    ensures
        concat(a + b) == concat(a) + concat(b),
    decreases b.len(),
{
    if b.len() == 0 {
        assert(a + b =~= a);
        assert(concat(a) + concat(b) =~= concat(a));
    } else {
        lemma_concat_add(a, b.drop_last());
        assert((a + b).drop_last() =~= a + b.drop_last());
        assert(concat(a) + concat(b) =~= concat(a) + concat(b.drop_last()) + b.last());
    }
}

/// Each line followed by a line feed.
pub open spec fn terminated(ls: Seq<Seq<char>>) -> Seq<char> {
    concat(ls.map_values(|l: Seq<char>| l + "\n"@))
}

/// A line that the line reader gives back as it is.
pub open spec fn plain_line(l: Seq<char>) -> bool {
    free_of(l, '\n') && !(l.len() > 0 && l.last() == '\r')
}

proof fn lemma_terminated_split(ls: Seq<Seq<char>>)
    requires
        forall|i: int| 0 <= i < ls.len() ==> free_of(#[trigger] ls[i], '\n'),
    ensures
        split_on(terminated(ls), '\n') == ls.push(seq![]),
    decreases ls.len(),
{
    reveal_strlit("\n");
    let m = ls.map_values(|l: Seq<char>| l + "\n"@);
    if ls.len() == 0 {
        assert(m =~= Seq::<Seq<char>>::empty());
        assert(ls.push(seq![]) =~= seq![Seq::<char>::empty()]);
    } else {
        let prev = ls.drop_last();
        lemma_terminated_split(prev);
        assert(m.drop_last() =~= prev.map_values(|l: Seq<char>| l + "\n"@));
        let x = terminated(prev);
        let l = ls.last();
        assert(free_of(l, '\n'));
        assert(terminated(ls) == x + (l + "\n"@));
        assert(x + (l + "\n"@) =~= (x + l) + seq!['\n']);
        assert((x + l + seq!['\n']).drop_last() =~= x + l);
        lemma_split_append(x, l, '\n');
        let p = prev.push(Seq::<char>::empty());
        assert(p.last() + l =~= l);
        assert(p.update(p.len() - 1, l) =~= ls);
        assert(split_on(x + l + seq!['\n'], '\n') == split_on(x + l, '\n').push(seq![]));
    }
}

/// The line reader gives back the lines of a text in which each line ends
/// with a line feed.
pub proof fn lemma_lines_terminated(ls: Seq<Seq<char>>)
    requires
        forall|i: int| 0 <= i < ls.len() ==> plain_line(#[trigger] ls[i]),
    ensures
        lines(terminated(ls)) == ls,
{
    reveal_strlit("\n");
    assert forall|i: int| 0 <= i < ls.len() implies free_of(#[trigger] ls[i], '\n') by {
        assert(plain_line(ls[i]));
    }
    lemma_terminated_split(ls);
    let s = terminated(ls);
    if ls.len() == 0 {
        assert(s =~= Seq::<char>::empty());
        assert(lines(s) =~= ls);
    } else {
        let m = ls.map_values(|l: Seq<char>| l + "\n"@);
        assert(s == concat(m.drop_last()) + m.last());
        assert(m.last() == ls.last() + "\n"@);
        assert(s.last() == '\n');
        assert(ls.push(seq![]).drop_last() =~= ls);
        assert forall|i: int| 0 <= i < ls.len() implies strip_cr(#[trigger] ls[i]) == ls[i] by {
            assert(plain_line(ls[i]));
        }
        assert(lines(s) =~= ls);
    }
}

pub proof fn lemma_terminated_add(a: Seq<Seq<char>>, b: Seq<Seq<char>>)
    ensures
        terminated(a + b) == terminated(a) + terminated(b),
{
    let f = |l: Seq<char>| l + "\n"@;
    assert((a + b).map_values(f) =~= a.map_values(f) + b.map_values(f));
    lemma_concat_add(a.map_values(f), b.map_values(f));
}


// ---------------------------------------------------------------------------
// Trimming
// ---------------------------------------------------------------------------

pub open spec fn all_ws(w: Seq<char>) -> bool {
    forall|i: int| 0 <= i < w.len() ==> is_ws(#[trigger] w[i])
}

/// Text that trimming leaves as it is.
pub open spec fn trimmed(v: Seq<char>) -> bool {
    trim(v) == v
}

proof fn lemma_trim_start_len(s: Seq<char>)
    ensures
        trim_start(s).len() <= s.len(),
    decreases s.len(),
{
    if s.len() > 0 && is_ws(s[0]) {
        lemma_trim_start_len(s.drop_first());
    }
}

proof fn lemma_trim_end_len(s: Seq<char>)
    ensures
        trim_end(s).len() <= s.len(),
    decreases s.len(),
{
    if s.len() > 0 && is_ws(s.last()) {
        lemma_trim_end_len(s.drop_last());
    }
}

pub proof fn lemma_trim_start_skip_ws(w: Seq<char>, x: Seq<char>)
    requires
        all_ws(w),
    ensures
        trim_start(w + x) == trim_start(x),
    decreases w.len(),
{
    if w.len() == 0 {
        assert(w + x =~= x);
    } else {
        assert((w + x)[0] == w[0]);
        assert((w + x).drop_first() =~= w.drop_first() + x);
        lemma_trim_start_skip_ws(w.drop_first(), x);
    }
}

pub proof fn lemma_trim_end_skip_ws(x: Seq<char>, w: Seq<char>)
    requires
        all_ws(w),
    ensures
        trim_end(x + w) == trim_end(x),
    decreases w.len(),
{
    if w.len() == 0 {
        assert(x + w =~= x);
    } else {
        assert((x + w).last() == w.last());
        assert((x + w).drop_last() =~= x + w.drop_last());
        lemma_trim_end_skip_ws(x, w.drop_last());
    }
}

/// Text with no whitespace at either end is trimmed, and conversely.
pub proof fn lemma_trimmed_edges(v: Seq<char>)
    ensures
        trimmed(v) <==> (v.len() == 0 || (!is_ws(v[0]) && !is_ws(v.last()))),
{
    if v.len() > 0 {
        if is_ws(v[0]) {
            lemma_trim_start_len(v.drop_first());
            lemma_trim_end_len(trim_start(v));
        } else if is_ws(v.last()) {
            lemma_trim_end_len(v.drop_last());
        }
    }
}

/// A labelled field ` L v` read back: trimmed, stripped of its label and
/// trimmed again, it is `v`.
proof fn lemma_labelled_field(label: Seq<char>, v: Seq<char>)
    requires
        label.len() > 0,
        !is_ws(label[0]),
        !is_ws(label.last()),
        trimmed(v),
    ensures
        strip_prefix(trim(" "@ + label + " "@ + v), label) matches Some(x) && trim(x) == v,
{
    reveal_strlit(" ");
    let sp = " "@;
    assert(all_ws(sp));
    lemma_trimmed_edges(v);
    assert(sp + label + sp + v =~= sp + (label + sp + v));
    lemma_trim_start_skip_ws(sp, label + sp + v);
    assert((label + sp + v)[0] == label[0]);
    assert(trim_start(label + sp + v) == label + sp + v);
    if v.len() > 0 {
        assert((label + sp + v).last() == v.last());
        assert(trim_end(label + sp + v) == label + sp + v);
        assert((label + sp + v).subrange(0, label.len() as int) =~= label);
        assert((label + sp + v).skip(label.len() as int) =~= sp + v);
        lemma_trim_start_skip_ws(sp, v);
    } else {
        assert(label + sp + v =~= label + sp);
        lemma_trim_end_skip_ws(label, sp);
        assert(trim_end(label) == label);
        assert(label.subrange(0, label.len() as int) =~= label);
        assert(label.skip(label.len() as int) =~= Seq::<char>::empty());
    }
}

// ---------------------------------------------------------------------------
// Decimal numbers read back
// ---------------------------------------------------------------------------

pub proof fn lemma_decimal_digits(n: nat)
    ensures
        decimal(n).len() > 0,
        all_digits(decimal(n)),
        digits_value(decimal(n)) == n,
    decreases n,
{
    let r = n % 10;
    assert(((r + 48) as u8) as nat == r + 48);
    assert((digit_char(r) as nat) == r + 48);
    assert((((digit_char(r) as nat) - 48) as nat) == r);
    if n < 10 {
        assert(decimal(n).drop_last() =~= Seq::<char>::empty());
        assert(decimal(n).last() == digit_char(r));
        assert(digits_value(decimal(n).drop_last()) == 0);
    } else {
        lemma_decimal_digits(n / 10);
        assert(decimal(n).drop_last() =~= decimal(n / 10));
        assert(decimal(n).last() == digit_char(r));
        assert(n == (n / 10) * 10 + r);
        assert(digits_value(decimal(n)) == digits_value(decimal(n / 10)) * 10 + r);
    }
}

/// A character that is neither whitespace nor any of the separators of the
/// storage format, as every decimal digit is.
pub open spec fn plain_char(c: char) -> bool {
    !is_ws(c) && c != ',' && c != ':' && c != '|' && c != '\n' && c != '+' && c != '\r'
}

pub proof fn lemma_decimal_plain(n: nat)
    ensures
        decimal(n).len() > 0,
        forall|i: int| 0 <= i < decimal(n).len() ==> plain_char(#[trigger] decimal(n)[i]),
        trimmed(decimal(n)),
        parse_u64_spec(decimal(n)) == (if n <= u64::MAX { Some(n as u64) } else { None }),
        parse_u32_spec(decimal(n)) == (if n <= u32::MAX { Some(n as u32) } else { None }),
{
    lemma_decimal_digits(n);
    let d = decimal(n);
    assert forall|i: int| 0 <= i < d.len() implies plain_char(#[trigger] d[i]) by {
        assert(is_digit(d[i]));
    }
    assert(plain_char(d[0]));
    assert(plain_char(d.last()));
    lemma_trimmed_edges(d);
    assert(unsigned_body(d) == d);
}

pub proof fn lemma_parse_empty()
    ensures
        parse_u64_spec(seq![]) is None,
        parse_u32_spec(seq![]) is None,
{
}

// ---------------------------------------------------------------------------
// Finding a character
// ---------------------------------------------------------------------------

proof fn lemma_find_first(s: Seq<char>, c: char, i: int)
    requires
        0 <= i < s.len(),
        s[i] == c,
        forall|j: int| 0 <= j < i ==> s[j] != c,
    ensures
        find_or_len(s, c) == i,
{
    crate::text::lemma_first_index_some(s, is_char(c));
    crate::text::lemma_first_index_none(s, is_char(c));
    assert(is_char(c)(s[i]));
    match first_index(s, is_char(c)) {
        Some(k) => {
            if k < i {
                assert(s[k] != c);
            }
        },
        None => {},
    }
}


// ---------------------------------------------------------------------------
// The pieces of a header line
// ---------------------------------------------------------------------------

/// A field label of the header: no whitespace at its ends, and none of the
/// separators inside.
pub open spec fn label_ok(l: Seq<char>) -> bool {
    l.len() > 0 && !is_ws(l[0]) && !is_ws(l.last()) && free_of(l, ',') && free_of(l, '\n')
}

pub open spec fn header_label(k: int) -> Seq<char> {
    if k == 0 {
        "Note ID:"@
    } else if k == 1 {
        "Title:"@
    } else if k == 2 {
        "Pinned:"@
    } else if k == 3 {
        "Tags:"@
    } else if k == 4 {
        "Color:"@
    } else if k == 5 {
        "CreatedAt:"@
    } else if k == 6 {
        "UpdatedAt:"@
    } else if k == 7 {
        "Password:"@
    } else if k == 8 {
        "Reminder:"@
    } else {
        "Links:"@
    }
}

/// The text that a header line holds for field `k` of a note.
pub open spec fn header_value(n: NoteView, k: int) -> Seq<char> {
    if k == 0 {
        decimal(n.id as nat)
    } else if k == 1 {
        n.title
    } else if k == 2 {
        bool_text(n.pinned)
    } else if k == 3 {
        join(n.tags, "|"@)
    } else if k == 4 {
        color_name(n.color)
    } else if k == 5 {
        decimal(n.created_at as nat)
    } else if k == 6 {
        decimal(n.updated_at as nat)
    } else if k == 7 {
        password_text(n)
    } else if k == 8 {
        reminder_text(n)
    } else {
        links_text(n.links)
    }
}

/// The `k`-th comma-separated piece of a note's header line.
pub open spec fn header_piece(n: NoteView, k: int) -> Seq<char> {
    if k == 0 {
        header_label(0) + " "@ + header_value(n, 0)
    } else {
        " "@ + header_label(k) + " "@ + header_value(n, k)
    }
}

/// The first `k + 1` pieces of a header line, joined by commas.
pub open spec fn header_prefix(n: NoteView, k: nat) -> Seq<char>
    decreases k,
{
    if k == 0 {
        header_piece(n, 0)
    } else {
        header_prefix(n, (k - 1) as nat) + ","@ + header_piece(n, k as int)
    }
}

proof fn lemma_labels_ok(k: int)
    requires
        0 <= k <= 9,
    ensures
        label_ok(header_label(k)),
{
    let l = header_label(k);
    if k == 0 {
        reveal_strlit("Note ID:");
    } else if k == 1 {
        reveal_strlit("Title:");
    } else if k == 2 {
        reveal_strlit("Pinned:");
    } else if k == 3 {
        reveal_strlit("Tags:");
    } else if k == 4 {
        reveal_strlit("Color:");
    } else if k == 5 {
        reveal_strlit("CreatedAt:");
    } else if k == 6 {
        reveal_strlit("UpdatedAt:");
    } else if k == 7 {
        reveal_strlit("Password:");
    } else if k == 8 {
        reveal_strlit("Reminder:");
    } else {
        reveal_strlit("Links:");
    }
    assert(free_of(l, ','));
    assert(free_of(l, '\n'));
}

/// The literal texts of the writer, taken apart into separator, label and
/// space.
proof fn lemma_header_literals()
    ensures
        "Note ID: "@ == header_label(0) + " "@,
        ", Title: "@ == ","@ + (" "@ + header_label(1) + " "@),
        ", Pinned: "@ == ","@ + (" "@ + header_label(2) + " "@),
        ", Tags: "@ == ","@ + (" "@ + header_label(3) + " "@),
        ", Color: "@ == ","@ + (" "@ + header_label(4) + " "@),
        ", CreatedAt: "@ == ","@ + (" "@ + header_label(5) + " "@),
        ", UpdatedAt: "@ == ","@ + (" "@ + header_label(6) + " "@),
        ", Password: "@ == ","@ + (" "@ + header_label(7) + " "@),
        ", Reminder: "@ == ","@ + (" "@ + header_label(8) + " "@),
        ", Links: "@ == ","@ + (" "@ + header_label(9) + " "@),
{
    reveal_strlit(" ");
    reveal_strlit(",");
    reveal_strlit("Note ID:");
    reveal_strlit("Note ID: ");
    assert("Note ID: "@ =~= header_label(0) + " "@);
    reveal_strlit("Title:");
    reveal_strlit(", Title: ");
    assert(", Title: "@ =~= ","@ + (" "@ + header_label(1) + " "@));
    reveal_strlit("Pinned:");
    reveal_strlit(", Pinned: ");
    assert(", Pinned: "@ =~= ","@ + (" "@ + header_label(2) + " "@));
    reveal_strlit("Tags:");
    reveal_strlit(", Tags: ");
    assert(", Tags: "@ =~= ","@ + (" "@ + header_label(3) + " "@));
    reveal_strlit("Color:");
    reveal_strlit(", Color: ");
    assert(", Color: "@ =~= ","@ + (" "@ + header_label(4) + " "@));
    reveal_strlit("CreatedAt:");
    reveal_strlit(", CreatedAt: ");
    assert(", CreatedAt: "@ =~= ","@ + (" "@ + header_label(5) + " "@));
    reveal_strlit("UpdatedAt:");
    reveal_strlit(", UpdatedAt: ");
    assert(", UpdatedAt: "@ =~= ","@ + (" "@ + header_label(6) + " "@));
    reveal_strlit("Password:");
    reveal_strlit(", Password: ");
    assert(", Password: "@ =~= ","@ + (" "@ + header_label(7) + " "@));
    reveal_strlit("Reminder:");
    reveal_strlit(", Reminder: ");
    assert(", Reminder: "@ =~= ","@ + (" "@ + header_label(8) + " "@));
    reveal_strlit("Links:");
    reveal_strlit(", Links: ");
    assert(", Links: "@ =~= ","@ + (" "@ + header_label(9) + " "@));
}

proof fn lemma_prefix_step(n: NoteView, k: nat)
    requires
        1 <= k <= 9,
    ensures
        header_prefix(n, k) == header_prefix(n, (k - 1) as nat) + (","@ + (" "@ + header_label(k as int) + " "@))
            + header_value(n, k as int),
{
    let p = header_prefix(n, (k - 1) as nat);
    let w = " "@ + header_label(k as int) + " "@;
    let v = header_value(n, k as int);
    assert(header_piece(n, k as int) =~= w + v);
    assert((p + ","@) + (w + v) =~= p + (","@ + w) + v);
}

proof fn lemma_assoc3(p: Seq<char>, a: Seq<char>, b: Seq<char>, c: Seq<char>, d: Seq<char>, e: Seq<char>, f: Seq<char>)
    ensures
        p + a + b + c + d + e + f == p + (a + b + c + d + e + f),
{
    assert(p + a + b + c + d + e + f =~= p + (a + b + c + d + e + f));
}

proof fn lemma_header_head(n: NoteView)
    ensures
        header_head(n) == header_prefix(n, 3),
{
    lemma_header_literals();
    lemma_prefix_step(n, 1);
    lemma_prefix_step(n, 2);
    lemma_prefix_step(n, 3);
}

proof fn lemma_header_middle(n: NoteView)
    ensures
        header_prefix(n, 6) == header_prefix(n, 3) + header_times(n),
{
    lemma_header_literals();
    lemma_prefix_step(n, 4);
    lemma_prefix_step(n, 5);
    lemma_prefix_step(n, 6);
    lemma_assoc3(
        header_prefix(n, 3),
        ", Color: "@,
        color_name(n.color),
        ", CreatedAt: "@,
        decimal(n.created_at as nat),
        ", UpdatedAt: "@,
        decimal(n.updated_at as nat),
    );
}

proof fn lemma_header_end(n: NoteView)
    ensures
        header_prefix(n, 8) == header_prefix(n, 6) + header_extras(n),
        header_prefix(n, 9) == header_prefix(n, 8) + ", Links: "@ + links_text(n.links),
{
    lemma_header_literals();
    lemma_prefix_step(n, 7);
    lemma_prefix_step(n, 8);
    lemma_prefix_step(n, 9);
    let p6 = header_prefix(n, 6);
    assert(header_prefix(n, 8) =~= p6 + header_extras(n));
}

/// The header line that the writer produces is the ten pieces joined by
/// commas, followed by a line feed.
proof fn lemma_header_line_pieces(n: NoteView)
    ensures
        header_line(n) == header_prefix(n, 9) + "\n"@,
{
    lemma_header_head(n);
    lemma_header_middle(n);
    lemma_header_end(n);
    let p3 = header_prefix(n, 3);
    let p6 = header_prefix(n, 6);
    let p8 = header_prefix(n, 8);
    let l = ", Links: "@ + links_text(n.links);
    assert(header_line(n) =~= p3 + header_times(n) + header_extras(n) + l + "\n"@);
}

// ---------------------------------------------------------------------------
// Which notes the format carries
// ---------------------------------------------------------------------------

/// Text that a header field carries unchanged: no whitespace at its ends,
/// no comma and no line feed.
pub open spec fn field_text(t: Seq<char>) -> bool {
    trimmed(t) && free_of(t, ',') && free_of(t, '\n')
}

/// A note whose fields the line format carries: a title and a password
/// (when set, non-empty) that are field text; at least one tag, none with a
/// `|`, whose `|`-joined text is field text; versions numbered 1, 2, ... in
/// order, each with content that has no line feed and no whitespace at its
/// ends, and none created after the note was last updated.
pub open spec fn storable_note(n: NoteView) -> bool {
    &&& field_text(n.title)
    &&& n.tags.len() > 0
    &&& field_text(join(n.tags, "|"@))
    &&& forall|i: int| 0 <= i < n.tags.len() ==> free_of(#[trigger] n.tags[i], '|')
    &&& match n.password {
        Some(p) => p.len() > 0 && field_text(p),
        None => true,
    }
    &&& numbered_in_order(n.versions)
    &&& forall|i: int|
        0 <= i < n.versions.len() ==> trimmed((#[trigger] n.versions[i]).content) && free_of(
            n.versions[i].content,
            '\n',
        ) && n.versions[i].created_at <= n.updated_at
}

proof fn lemma_free_add(a: Seq<char>, b: Seq<char>, c: char)
    requires
        free_of(a, c),
        free_of(b, c),
    ensures
        free_of(a + b, c),
{
    assert forall|i: int| 0 <= i < (a + b).len() implies #[trigger] (a + b)[i] != c by {
        if i < a.len() {
            assert((a + b)[i] == a[i]);
        } else {
            assert((a + b)[i] == b[i - a.len()]);
        }
    }
}

proof fn lemma_join_free(ps: Seq<Seq<char>>, sep: Seq<char>, c: char)
    requires
        free_of(sep, c),
        forall|i: int| 0 <= i < ps.len() ==> free_of(#[trigger] ps[i], c),
    ensures
        free_of(join(ps, sep), c),
    decreases ps.len(),
{
    if ps.len() == 1 {
        assert(free_of(ps[0], c));
    } else if ps.len() > 1 {
        let q = ps.drop_last();
        assert forall|i: int| 0 <= i < q.len() implies free_of(#[trigger] q[i], c) by {
            assert(q[i] == ps[i]);
            assert(free_of(ps[i], c));
        }
        lemma_join_free(q, sep, c);
        assert(free_of(ps.last(), c));
        lemma_free_add(join(q, sep), sep, c);
        lemma_free_add(join(q, sep) + sep, ps.last(), c);
    }
}

proof fn lemma_join_edges(ps: Seq<Seq<char>>, sep: Seq<char>)
    requires
        ps.len() > 0,
        ps[0].len() > 0,
        ps.last().len() > 0,
    ensures
        join(ps, sep).len() > 0,
        join(ps, sep)[0] == ps[0][0],
        join(ps, sep).last() == ps.last().last(),
    decreases ps.len(),
{
    if ps.len() > 1 {
        let q = ps.drop_last();
        if q.len() > 1 {
            lemma_join_edges_first(q, sep);
        }
        let x = join(q, sep);
        assert(x.len() > 0 && x[0] == ps[0][0]) by {
            if q.len() > 1 {
                lemma_join_edges_first(q, sep);
            }
        }
        assert((x + sep + ps.last())[0] == x[0]);
    }
}

proof fn lemma_join_edges_first(ps: Seq<Seq<char>>, sep: Seq<char>)
    requires
        ps.len() > 0,
        ps[0].len() > 0,
    ensures
        join(ps, sep).len() > 0,
        join(ps, sep)[0] == ps[0][0],
    decreases ps.len(),
{
    if ps.len() > 1 {
        let q = ps.drop_last();
        lemma_join_edges_first(q, sep);
        let x = join(q, sep);
        assert((x + sep + ps.last())[0] == x[0]);
    }
}

proof fn lemma_bool_text(b: bool)
    ensures
        field_text(bool_text(b)),
        (bool_text(b) == "true"@) == b,
{
    reveal_strlit("true");
    reveal_strlit("false");
    let t = bool_text(b);
    assert(t.len() > 0);
    assert(!is_ws(t[0]) && !is_ws(t.last()));
    lemma_trimmed_edges(t);
    assert(free_of(t, ','));
    assert(free_of(t, '\n'));
    if !b {
        assert(t.len() != "true"@.len());
    }
}

pub proof fn lemma_color_text(c: NoteColor)
    ensures
        field_text(color_name(c)),
        crate::note::color_named(crate::text::lowercase_of(color_name(c))) == c,
        color_name(c).len() > 0,
        forall|i: int| 0 <= i < color_name(c).len() ==> 'a' <= #[trigger] color_name(c)[i] <= 'z',
        crate::text::lowercase_of(color_name(c)) == color_name(c),
{
    reveal_strlit("default");
    reveal_strlit("red");
    reveal_strlit("green");
    reveal_strlit("blue");
    reveal_strlit("yellow");
    reveal_strlit("magenta");
    reveal_strlit("cyan");
    let t = color_name(c);
    assert(t.len() > 0);
    assert(!is_ws(t[0]) && !is_ws(t.last()));
    lemma_trimmed_edges(t);
    assert(free_of(t, ','));
    assert(free_of(t, '\n'));
    assert(crate::text::is_ascii_text(t));
    assert(t.map_values(|ch: char| crate::text::ascii_lower_char(ch)) =~= t);
}

proof fn lemma_decimal_field(x: nat)
    ensures
        field_text(decimal(x)),
        free_of(decimal(x), '|'),
{
    lemma_decimal_plain(x);
    let d = decimal(x);
    assert forall|i: int| 0 <= i < d.len() implies #[trigger] d[i] != ',' && d[i] != '\n' && d[i] != '|' by {
        assert(plain_char(d[i]));
    }
}

proof fn lemma_links_field(links: Seq<u32>)
    ensures
        field_text(links_text(links)),
{
    reveal_strlit("|");
    let ds = links.map_values(|l: u32| decimal_u32(l));
    assert forall|i: int| 0 <= i < ds.len() implies free_of(#[trigger] ds[i], ',') && free_of(ds[i], '\n') by {
        lemma_decimal_field(links[i] as nat);
    }
    lemma_join_free(ds, "|"@, ',');
    lemma_join_free(ds, "|"@, '\n');
    let t = links_text(links);
    if links.len() > 0 {
        lemma_decimal_plain(links[0] as nat);
        lemma_decimal_plain(links.last() as nat);
        lemma_join_edges(ds, "|"@);
        assert(plain_char(ds[0][0]));
        assert(plain_char(ds.last().last()));
    } else {
        assert(ds.len() == 0);
    }
    lemma_trimmed_edges(t);
}

/// Every value of a storable note's header is field text.
proof fn lemma_header_values(n: NoteView, k: int)
    requires
        storable_note(n),
        0 <= k <= 9,
    ensures
        field_text(header_value(n, k)),
{
    if k == 0 {
        lemma_decimal_field(n.id as nat);
    } else if k == 1 {
        assert(header_value(n, k) == n.title);
    } else if k == 3 {
        assert(header_value(n, k) == join(n.tags, "|"@));
    } else if k == 2 {
        lemma_bool_text(n.pinned);
    } else if k == 4 {
        lemma_color_text(n.color);
    } else if k == 5 {
        lemma_decimal_field(n.created_at as nat);
    } else if k == 6 {
        lemma_decimal_field(n.updated_at as nat);
    } else if k == 7 {
        match n.password {
            Some(p) => assert(header_value(n, k) == p),
            None => {
                reveal_strlit("");
                lemma_trimmed_edges(password_text(n));
            },
        }
    } else if k == 8 {
        match n.reminder {
            Some(r) => {
                lemma_decimal_field(r as nat);
                assert(header_value(n, k) == decimal(r as nat));
            },
            None => {
                reveal_strlit("");
                lemma_trimmed_edges(reminder_text(n));
            },
        }
    } else if k == 9 {
        lemma_links_field(n.links);
    }
}


// ---------------------------------------------------------------------------
// Reading a header back
// ---------------------------------------------------------------------------

proof fn lemma_piece_free(n: NoteView, k: int)
    requires
        storable_note(n),
        0 <= k <= 9,
    ensures
        free_of(header_piece(n, k), ','),
        free_of(header_piece(n, k), '\n'),
{
    reveal_strlit(" ");
    let sp = " "@;
    let l = header_label(k);
    let v = header_value(n, k);
    lemma_labels_ok(k);
    lemma_header_values(n, k);
    assert(free_of(sp, ',') && free_of(sp, '\n'));
    if k == 0 {
        lemma_free_add(l, sp, ',');
        lemma_free_add(l + sp, v, ',');
        lemma_free_add(l, sp, '\n');
        lemma_free_add(l + sp, v, '\n');
    } else {
        lemma_free_add(sp, l, ',');
        lemma_free_add(sp + l, sp, ',');
        lemma_free_add(sp + l + sp, v, ',');
        lemma_free_add(sp, l, '\n');
        lemma_free_add(sp + l, sp, '\n');
        lemma_free_add(sp + l + sp, v, '\n');
    }
}

pub open spec fn header_pieces(n: NoteView, k: nat) -> Seq<Seq<char>> {
    Seq::new(k + 1, |j: int| header_piece(n, j))
}

proof fn lemma_split_header(n: NoteView, k: nat)
    requires
        storable_note(n),
        k <= 9,
    ensures
        split_on(header_prefix(n, k), ',') == header_pieces(n, k),
    decreases k,
{
    reveal_strlit(",");
    lemma_piece_free(n, k as int);
    if k == 0 {
        lemma_split_single(header_piece(n, 0), ',');
        assert(seq![header_piece(n, 0)] =~= header_pieces(n, 0));
    } else {
        lemma_split_header(n, (k - 1) as nat);
        assert(","@ =~= seq![',']);
        lemma_split_sep_append(header_prefix(n, (k - 1) as nat), header_piece(n, k as int), ',');
        assert(header_pieces(n, (k - 1) as nat).push(header_piece(n, k as int)) =~= header_pieces(n, k));
    }
}

proof fn lemma_split_join(ps: Seq<Seq<char>>, c: char)
    requires
        ps.len() > 0,
        forall|i: int| 0 <= i < ps.len() ==> free_of(#[trigger] ps[i], c),
    ensures
        split_on(join(ps, seq![c]), c) == ps,
    decreases ps.len(),
{
    assert(free_of(ps.last(), c));
    if ps.len() == 1 {
        lemma_split_single(ps[0], c);
        assert(seq![ps[0]] =~= ps);
    } else {
        let q = ps.drop_last();
        assert forall|i: int| 0 <= i < q.len() implies free_of(#[trigger] q[i], c) by {
            assert(q[i] == ps[i]);
            assert(free_of(ps[i], c));
        }
        lemma_split_join(q, c);
        lemma_split_sep_append(join(q, seq![c]), ps.last(), c);
        assert(q.push(ps.last()) =~= ps);
    }
}

/// Field `k` of a storable note's header reads back as its value.
proof fn lemma_field_read(n: NoteView, k: int)
    requires
        storable_note(n),
        1 <= k <= 9,
    ensures
        field(header_pieces(n, 9), k, header_label(k)) matches Some(x) && trim(x) == header_value(n, k),
{
    lemma_labels_ok(k);
    lemma_header_values(n, k);
    lemma_labelled_field(header_label(k), header_value(n, k));
}

proof fn lemma_id_read(n: NoteView)
    ensures
        parsed_id(header_pieces(n, 9)) == n.id,
{
    reveal_strlit(" ");
    reveal_strlit("Note ID:");
    let d = decimal(n.id as nat);
    let l = "Note ID:"@;
    let piece = header_pieces(n, 9)[0];
    assert(piece == l + " "@ + d);
    assert(piece.subrange(0, l.len() as int) =~= l);
    assert(piece.skip(l.len() as int) =~= " "@ + d);
    lemma_decimal_plain(n.id as nat);
    assert(all_ws(" "@));
    lemma_trim_start_skip_ws(" "@, d);
}

proof fn lemma_links_parse(links: Seq<u32>, f: spec_fn(Seq<char>) -> Option<u32>)
    requires
        forall|x: Seq<char>| #[trigger] f(x) == parse_u32_spec(x),
    ensures
        links.map_values(|l: u32| decimal_u32(l)).filter_map(f) == links,
    decreases links.len(),
{
    let ds = links.map_values(|l: u32| decimal_u32(l));
    if links.len() > 0 {
        let q = links.drop_last();
        lemma_links_parse(q, f);
        assert(ds.drop_last() =~= q.map_values(|l: u32| decimal_u32(l)));
        lemma_decimal_plain(links.last() as nat);
        assert(f(ds.last()) == Some(links.last()));
        assert(q + seq![links.last()] =~= links);
    } else {
        assert(ds.len() == 0);
    }
}

proof fn lemma_links_read(links: Seq<u32>, f: spec_fn(Seq<char>) -> Option<u32>)
    requires
        forall|x: Seq<char>| #[trigger] f(x) == parse_u32_spec(x),
    ensures
        split_on(links_text(links), '|').filter_map(f) == links,
{
    reveal_strlit("|");
    let ds = links.map_values(|l: u32| decimal_u32(l));
    if links.len() == 0 {
        assert(ds.len() == 0);
        let e = Seq::<char>::empty();
        assert(links_text(links) == e);
        lemma_parse_empty();
        let p = seq![e];
        assert(p.drop_last() =~= Seq::<Seq<char>>::empty());
        assert(f(e) is None);
        assert(p.last() == e);
        assert(Seq::<Seq<char>>::empty().filter_map(f) =~= Seq::<u32>::empty());
        assert(p.filter_map(f) =~= links);
    } else {
        assert forall|i: int| 0 <= i < ds.len() implies free_of(#[trigger] ds[i], '|') by {
            lemma_decimal_field(links[i] as nat);
        }
        assert("|"@ =~= seq!['|']);
        lemma_split_join(ds, '|');
        lemma_links_parse(links, f);
    }
}

/// A storable note's header line reads back as the note without its
/// versions.
proof fn lemma_header_read(n: NoteView)
    requires
        storable_note(n),
    ensures
        header_note(header_prefix(n, 9)) == (NoteView { versions: seq![], ..n }),
{
    reveal_strlit("|");
    reveal_strlit("");
    let line = header_prefix(n, 9);
    lemma_split_header(n, 9);
    let parts = header_pieces(n, 9);
    assert(header_parts(line) == parts);
    lemma_id_read(n);
    lemma_field_read(n, 1);
    lemma_field_read(n, 2);
    lemma_bool_text(n.pinned);
    lemma_field_read(n, 3);
    assert forall|i: int| 0 <= i < n.tags.len() implies free_of(#[trigger] n.tags[i], '|') by {}
    assert("|"@ =~= seq!['|']);
    lemma_split_join(n.tags, '|');
    lemma_field_read(n, 4);
    lemma_color_text(n.color);
    lemma_field_read(n, 5);
    lemma_decimal_plain(n.created_at as nat);
    lemma_field_read(n, 6);
    lemma_decimal_plain(n.updated_at as nat);
    lemma_field_read(n, 7);
    lemma_field_read(n, 8);
    lemma_parse_empty();
    match n.reminder {
        Some(r) => lemma_decimal_plain(r as nat),
        None => {},
    }
    lemma_field_read(n, 9);
    lemma_links_read(n.links, |x: Seq<char>| parse_u32_spec(x));
    let h = header_note(line);
    assert(h.id == n.id);
    assert(h.title == n.title);
    assert(h.pinned == n.pinned);
    assert(h.tags == n.tags);
    assert(h.color == n.color);
    assert(h.created_at == n.created_at);
    assert(h.updated_at == n.updated_at);
    assert(h.password == n.password);
    assert(h.reminder == n.reminder);
    assert(h.links == parsed_links(parts));
    assert(h.links == n.links);
    assert(h.versions =~= Seq::<VersionView>::empty());
}


// ---------------------------------------------------------------------------
// Reading a version line back
// ---------------------------------------------------------------------------

/// The line of a version without its line feed.
pub open spec fn version_body(v: VersionView) -> Seq<char> {
    "Version "@ + decimal(v.version_number as nat) + ", CreatedAt: "@ + decimal(v.created_at as nat) + ": "@
        + v.content
}

/// A version line of trimmed content reads back as its timestamp and
/// content.
#[verifier::spinoff_prover]
#[verifier::rlimit(40)]
proof fn lemma_version_read(v: VersionView)
    requires
        trimmed(v.content),
    ensures
        version_fields(version_body(v)) == (v.created_at, v.content),
{
    reveal_strlit("Version ");
    reveal_strlit(", CreatedAt: ");
    reveal_strlit(", CreatedAt:");
    reveal_strlit(": ");
    reveal_strlit(":");
    reveal_strlit(" ");
    let vv = "Version "@;
    let cc = ", CreatedAt: "@;
    let ss = ": "@;
    let d1 = decimal(v.version_number as nat);
    let d2 = decimal(v.created_at as nat);
    let c = v.content;
    let line = version_body(v);
    lemma_decimal_digits(v.version_number as nat);
    lemma_decimal_digits(v.created_at as nat);
    lemma_decimal_plain(v.created_at as nat);
    assert(forall|j: int| 0 <= j < d1.len() ==> is_digit(#[trigger] d1[j]));
    assert(forall|j: int| 0 <= j < d2.len() ==> is_digit(#[trigger] d2[j]));
    // The marker is there.
    let at: int = 8 + d1.len() as int;
    assert(line.subrange(at, at + 12) =~= ", CreatedAt:"@);
    assert(occurs_at(line, ", CreatedAt:"@, at));
    assert(contains(line, ", CreatedAt:"@));
    // The version word comes off once.
    let after = d1 + cc + d2 + ss + c;
    assert(line.subrange(0, 8) =~= vv);
    assert(line.skip(8) =~= after);
    assert(after[0] == d1[0]);
    assert(!starts_with(after, vv)) by {
        if starts_with(after, vv) {
            assert(after.subrange(0, 8)[0] == vv[0]);
        }
    }
    assert(strip_all_prefix(after, vv) == after);
    assert(strip_all_prefix(line, vv) == after);
    // The first comma ends the version number.
    assert(after[d1.len() as int] == ',');
    assert(forall|j: int| 0 <= j < d1.len() ==> after[j] == d1[j]);
    lemma_find_first(after, ',', d1.len() as int);
    let rest = after.skip(d1.len() as int);
    assert(rest =~= cc + d2 + ss + c);
    let stripped = d2 + ss + c;
    assert(rest.subrange(0, cc.len() as int) =~= cc);
    assert(rest.skip(cc.len() as int) =~= stripped);
    assert(strip_prefix(rest, cc) == Some(stripped));
    // The first colon ends the timestamp.
    assert(stripped[d2.len() as int] == ':');
    assert(forall|j: int| 0 <= j < d2.len() ==> stripped[j] == d2[j]);
    lemma_find_first(stripped, ':', d2.len() as int);
    assert(stripped.take(d2.len() as int) =~= d2);
    let tail = ss + c;
    assert(stripped.skip(d2.len() as int) =~= tail);
    assert(tail.subrange(0, 1) =~= ":"@);
    assert(tail.skip(1) =~= " "@ + c);
    assert(!starts_with(" "@ + c, ":"@)) by {
        if starts_with(" "@ + c, ":"@) {
            assert((" "@ + c).subrange(0, 1)[0] == ":"@[0]);
        }
    }
    assert(strip_all_prefix(" "@ + c, ":"@) == " "@ + c);
    assert(strip_all_prefix(tail, ":"@) == " "@ + c);
    assert(all_ws(" "@));
    lemma_trim_start_skip_ws(" "@, c);
}


// ---------------------------------------------------------------------------
// The lines of the saved text
// ---------------------------------------------------------------------------

/// The lines that a note is saved as, without their line feeds.
pub open spec fn note_lines(n: NoteView) -> Seq<Seq<char>> {
    seq![header_prefix(n, 9)] + n.versions.map_values(|v: VersionView| version_body(v))
}

/// The lines that notes are saved as, without their line feeds.
pub open spec fn all_lines(ns: Seq<NoteView>) -> Seq<Seq<char>>
    decreases ns.len(),
{
    if ns.len() == 0 {
        seq![]
    } else {
        all_lines(ns.drop_last()) + note_lines(ns.last())
    }
}

proof fn lemma_note_record(n: NoteView)
    ensures
        note_record(n) == terminated(note_lines(n)),
{
    let hb = header_prefix(n, 9);
    let vbs = n.versions.map_values(|v: VersionView| version_body(v));
    lemma_terminated_add(seq![hb], vbs);
    lemma_header_line_pieces(n);
    let one = seq![hb].map_values(|l: Seq<char>| l + "\n"@);
    assert(one.drop_last() =~= Seq::<Seq<char>>::empty());
    assert(one.last() == hb + "\n"@);
    assert(concat(Seq::<Seq<char>>::empty()) == Seq::<char>::empty());
    assert(terminated(seq![hb]) =~= hb + "\n"@);
    assert(vbs.map_values(|l: Seq<char>| l + "\n"@) =~= n.versions.map_values(|v: VersionView| version_record(v)));
}

proof fn lemma_storage_lines(ns: Seq<NoteView>)
    ensures
        concat(ns.map_values(|n: NoteView| note_record(n))) == terminated(all_lines(ns)),
    decreases ns.len(),
{
    if ns.len() > 0 {
        let q = ns.drop_last();
        lemma_storage_lines(q);
        assert(ns.map_values(|n: NoteView| note_record(n)).drop_last() =~= q.map_values(|n: NoteView| note_record(n)));
        lemma_note_record(ns.last());
        lemma_terminated_add(all_lines(q), note_lines(ns.last()));
    } else {
        assert(ns.map_values(|n: NoteView| note_record(n)) =~= Seq::<Seq<char>>::empty());
        assert(all_lines(ns).map_values(|l: Seq<char>| l + "\n"@) =~= Seq::<Seq<char>>::empty());
    }
}

proof fn lemma_prefix_free_lf(n: NoteView, k: nat)
    requires
        storable_note(n),
        k <= 9,
    ensures
        free_of(header_prefix(n, k), '\n'),
        header_prefix(n, k).len() >= header_piece(n, 0).len(),
        forall|i: int| 0 <= i < header_piece(n, 0).len() ==> #[trigger] header_prefix(n, k)[i] == header_piece(n, 0)[i],
    decreases k,
{
    reveal_strlit(",");
    lemma_piece_free(n, k as int);
    if k > 0 {
        let p = header_prefix(n, (k - 1) as nat);
        lemma_prefix_free_lf(n, (k - 1) as nat);
        assert(free_of(","@, '\n'));
        lemma_free_add(p, ","@, '\n');
        lemma_free_add(p + ","@, header_piece(n, k as int), '\n');
        assert forall|i: int| 0 <= i < header_piece(n, 0).len() implies #[trigger] header_prefix(n, k)[i]
            == header_piece(n, 0)[i] by {
            assert(header_prefix(n, k)[i] == p[i]);
        }
    }
}

/// The header line of a storable note is a plain line that starts with the
/// header marker.
proof fn lemma_header_plain(n: NoteView)
    requires
        storable_note(n),
    ensures
        plain_line(header_prefix(n, 9)),
        starts_with(header_prefix(n, 9), "Note ID:"@),
{
    reveal_strlit(" ");
    reveal_strlit("Note ID:");
    lemma_prefix_free_lf(n, 9);
    let hb = header_prefix(n, 9);
    let v = header_value(n, 9);
    lemma_header_values(n, 9);
    lemma_trimmed_edges(v);
    let w = " "@ + header_label(9) + " "@;
    assert(header_piece(n, 9) == w + v);
    if v.len() > 0 {
        assert(hb.last() == v.last());
    } else {
        assert(hb.last() == ' ');
    }
    let l = "Note ID:"@;
    assert(header_piece(n, 0) == l + " "@ + decimal(n.id as nat));
    assert(hb.subrange(0, l.len() as int) =~= l) by {
        assert forall|i: int| 0 <= i < l.len() implies hb.subrange(0, l.len() as int)[i] == l[i] by {
            assert(hb[i] == header_piece(n, 0)[i]);
        }
    }
}

/// The line of a version with storable content is a plain line that starts
/// with the version marker and not with the header marker.
proof fn lemma_version_plain(v: VersionView)
    requires
        trimmed(v.content),
        free_of(v.content, '\n'),
    ensures
        plain_line(version_body(v)),
        starts_with(version_body(v), "Version "@),
        !starts_with(version_body(v), "Note ID:"@),
{
    reveal_strlit("Version ");
    reveal_strlit(", CreatedAt: ");
    reveal_strlit(": ");
    reveal_strlit("Note ID:");
    let d1 = decimal(v.version_number as nat);
    let d2 = decimal(v.created_at as nat);
    lemma_decimal_field(v.version_number as nat);
    lemma_decimal_field(v.created_at as nat);
    let b = version_body(v);
    assert(free_of("Version "@, '\n'));
    assert(free_of(", CreatedAt: "@, '\n'));
    assert(free_of(": "@, '\n'));
    lemma_free_add("Version "@, d1, '\n');
    lemma_free_add("Version "@ + d1, ", CreatedAt: "@, '\n');
    lemma_free_add("Version "@ + d1 + ", CreatedAt: "@, d2, '\n');
    lemma_free_add("Version "@ + d1 + ", CreatedAt: "@ + d2, ": "@, '\n');
    lemma_free_add("Version "@ + d1 + ", CreatedAt: "@ + d2 + ": "@, v.content, '\n');
    lemma_trimmed_edges(v.content);
    if v.content.len() > 0 {
        assert(b.last() == v.content.last());
    } else {
        assert(b.last() == ' ');
    }
    assert(b.subrange(0, 8) =~= "Version "@);
    assert(b[0] == 'V');
    if starts_with(b, "Note ID:"@) {
        assert(b.subrange(0, 8)[0] == "Note ID:"@[0]);
    }
}

// ---------------------------------------------------------------------------
// Reading line after line
// ---------------------------------------------------------------------------

/// Reading the lines `ls` into what `o` holds.
pub open spec fn load_more(o: Option<ManagerView>, ls: Seq<Seq<char>>) -> Option<ManagerView>
    decreases ls.len(),
{
    if ls.len() == 0 {
        o
    } else {
        match load_more(o, ls.drop_last()) {
            Some(m) => load_line(m, ls.last()),
            None => None,
        }
    }
}

proof fn lemma_load_lines_more(ls: Seq<Seq<char>>)
    ensures
        load_lines(ls) == load_more(Some(empty_manager()), ls),
    decreases ls.len(),
{
    if ls.len() > 0 {
        lemma_load_lines_more(ls.drop_last());
    }
}

proof fn lemma_load_more_add(o: Option<ManagerView>, a: Seq<Seq<char>>, b: Seq<Seq<char>>)
    ensures
        load_more(o, a + b) == load_more(load_more(o, a), b),
    decreases b.len(),
{
    if b.len() == 0 {
        assert(a + b =~= a);
    } else {
        lemma_load_more_add(o, a, b.drop_last());
        assert((a + b).drop_last() =~= a + b.drop_last());
        assert((a + b).last() == b.last());
    }
}

/// Reading the version lines of a storable note after its header adds its
/// versions one by one.
proof fn lemma_load_versions(pre: Seq<NoteView>, n: NoteView, rest: ManagerView, k: int)
    requires
        storable_note(n),
        0 <= k <= n.versions.len(),
    ensures
        load_more(
            Some(ManagerView { notes: pre.push(NoteView { versions: seq![], ..n }), ..rest }),
            n.versions.map_values(|v: VersionView| version_body(v)).take(k),
        ) == Some(ManagerView { notes: pre.push(NoteView { versions: n.versions.take(k), ..n }), ..rest }),
    decreases k,
{
    let vbs = n.versions.map_values(|v: VersionView| version_body(v));
    let m0 = ManagerView { notes: pre.push(NoteView { versions: seq![], ..n }), ..rest };
    if k == 0 {
        assert(vbs.take(0) =~= Seq::<Seq<char>>::empty());
        assert(n.versions.take(0) =~= Seq::<VersionView>::empty());
    } else {
        lemma_load_versions(pre, n, rest, k - 1);
        assert(vbs.take(k).drop_last() =~= vbs.take(k - 1));
        let v = n.versions[k - 1];
        assert(vbs.take(k).last() == version_body(v));
        assert(v.version_number == k);
        assert(trimmed(v.content) && free_of(v.content, '\n') && v.created_at <= n.updated_at);
        lemma_version_plain(v);
        lemma_version_read(v);
        let mk = ManagerView { notes: pre.push(NoteView { versions: n.versions.take(k - 1), ..n }), ..rest };
        let last = mk.notes.last();
        assert(last.versions.len() == k - 1);
        let nv = VersionView { version_number: (last.versions.len() + 1) as u32, content: v.content, created_at: v.created_at };
        assert(nv == v);
        assert(n.versions.take(k - 1).push(v) =~= n.versions.take(k));
        assert(mk.notes.update(mk.notes.len() - 1, NoteView { versions: last.versions.push(nv), ..last })
            =~= pre.push(NoteView { versions: n.versions.take(k), ..n }));
    }
}

/// Reading the lines of a storable note adds the note.
proof fn lemma_load_note(m: ManagerView, n: NoteView)
    requires
        storable_note(n),
        m.next_id < u32::MAX,
        n.id < u32::MAX,
    ensures
        load_more(Some(m), note_lines(n)) == Some(
            ManagerView {
                notes: m.notes.push(n),
                next_id: if n.id >= m.next_id + 1 { (n.id + 1) as u32 } else { (m.next_id + 1) as u32 },
                ..m
            },
        ),
{
    let hb = header_prefix(n, 9);
    let vbs = n.versions.map_values(|v: VersionView| version_body(v));
    lemma_load_more_add(Some(m), seq![hb], vbs);
    assert(seq![hb].drop_last() =~= Seq::<Seq<char>>::empty());
    lemma_header_plain(n);
    lemma_header_read(n);
    let next = (m.next_id + 1) as u32;
    let m1 = ManagerView {
        notes: m.notes.push(NoteView { versions: seq![], ..n }),
        next_id: if n.id >= next { (n.id + 1) as u32 } else { next },
        ..m
    };
    assert(load_more(Some(m), Seq::<Seq<char>>::empty()) == Some(m));
    assert(header_note(hb) == NoteView { versions: seq![], ..n });
    assert(load_line(m, hb) == Some(m1));
    assert(load_more(Some(m), seq![hb]) == Some(m1));
    lemma_load_versions(m.notes, n, m1, n.versions.len() as int);
    assert(vbs.take(n.versions.len() as int) =~= vbs);
    assert(n.versions.take(n.versions.len() as int) =~= n.versions);
}

/// The next id after reading headers with the ids of `ns`, in order, into
/// an empty manager: each header moves it one up, or past the header's id
/// when that is larger.
pub open spec fn next_id_after(ns: Seq<NoteView>) -> int
    decreases ns.len(),
{
    if ns.len() == 0 {
        1
    } else {
        let next = next_id_after(ns.drop_last()) + 1;
        if ns.last().id >= next {
            ns.last().id + 1
        } else {
            next
        }
    }
}

/// Reading the headers of `ns` in order never meets the largest `u32`,
/// neither as the next id nor as a note's id.
pub open spec fn ids_fit(ns: Seq<NoteView>) -> bool
    decreases ns.len(),
{
    ns.len() == 0 || (ids_fit(ns.drop_last()) && next_id_after(ns.drop_last()) < u32::MAX && ns.last().id
        < u32::MAX)
}

proof fn lemma_load_more_none(ls: Seq<Seq<char>>)
    ensures
        load_more(None, ls) is None,
    decreases ls.len(),
{
    if ls.len() > 0 {
        lemma_load_more_none(ls.drop_last());
    }
}

/// Reading the saved lines of storable notes gives back the notes, with a
/// next id above all of theirs, exactly when their ids fit.
proof fn lemma_load_all(ns: Seq<NoteView>)
    requires
        forall|i: int| 0 <= i < ns.len() ==> storable_note(#[trigger] ns[i]),
    ensures
        forall|i: int| 0 <= i < all_lines(ns).len() ==> plain_line(#[trigger] all_lines(ns)[i]),
        ids_fit(ns) ==> (load_lines(all_lines(ns)) matches Some(r) && r.notes == ns && r.trash == Seq::<
            NoteView,
        >::empty() && r.autosave && r.next_id == next_id_after(ns) && forall|i: int|
            0 <= i < ns.len() ==> (#[trigger] ns[i]).id < r.next_id),
        !ids_fit(ns) ==> load_lines(all_lines(ns)) is None,
    decreases ns.len(),
{
    if ns.len() == 0 {
        assert(empty_manager().notes =~= ns);
    } else {
        let q = ns.drop_last();
        let n = ns.last();
        assert forall|i: int| 0 <= i < q.len() implies storable_note(#[trigger] q[i]) by {
            assert(q[i] == ns[i]);
            assert(storable_note(ns[i]));
        }
        lemma_load_all(q);
        assert(storable_note(ns[ns.len() - 1]));
        let hb = header_prefix(n, 9);
        let vbs = n.versions.map_values(|v: VersionView| version_body(v));
        lemma_load_lines_more(all_lines(q));
        lemma_load_lines_more(all_lines(ns));
        lemma_load_more_add(Some(empty_manager()), all_lines(q), note_lines(n));
        lemma_load_more_none(note_lines(n));
        if ids_fit(q) {
            let r = load_lines(all_lines(q))->0;
            if next_id_after(q) < u32::MAX && n.id < u32::MAX {
                lemma_load_note(r, n);
                assert(q.push(n) =~= ns);
                assert(((r.next_id + 1) as u32) == r.next_id + 1);
                assert(((n.id + 1) as u32) == n.id + 1);
            } else {
                lemma_load_more_add(Some(r), seq![hb], vbs);
                assert(seq![hb].drop_last() =~= Seq::<Seq<char>>::empty());
                lemma_header_plain(n);
                lemma_header_read(n);
                assert(load_line(r, hb) is None);
                assert(load_more(Some(r), Seq::<Seq<char>>::empty()) == Some(r));
                assert(load_more(Some(r), seq![hb]) is None);
                lemma_load_more_none(vbs);
            }
        }
        // Every line is plain.
        lemma_header_plain(n);
        let nl = note_lines(n);
        assert forall|i: int| 0 <= i < nl.len() implies plain_line(#[trigger] nl[i]) by {
            if i > 0 {
                let v = n.versions[i - 1];
                assert(trimmed(v.content) && free_of(v.content, '\n'));
                lemma_version_plain(v);
                assert(nl[i] == vbs[i - 1]);
            }
        }
        let al = all_lines(ns);
        assert forall|i: int| 0 <= i < al.len() implies plain_line(#[trigger] al[i]) by {
            if i < all_lines(q).len() {
                assert(al[i] == all_lines(q)[i]);
            } else {
                assert(al[i] == nl[i - all_lines(q).len()]);
            }
        }
    }
}

proof fn lemma_next_id_bound(ns: Seq<NoteView>, b: int)
    requires
        0 <= b,
        forall|i: int| 0 <= i < ns.len() ==> (#[trigger] ns[i]).id <= b,
    ensures
        next_id_after(ns) <= b + 1 + ns.len(),
    decreases ns.len(),
{
    if ns.len() > 0 {
        let q = ns.drop_last();
        assert forall|i: int| 0 <= i < q.len() implies (#[trigger] q[i]).id <= b by {
            assert(q[i] == ns[i]);
        }
        lemma_next_id_bound(q, b);
        assert(ns[ns.len() - 1].id <= b);
    }
}

proof fn lemma_ids_fit_below(ns: Seq<NoteView>, b: int)
    requires
        0 <= b,
        b + ns.len() < u32::MAX,
        forall|i: int| 0 <= i < ns.len() ==> (#[trigger] ns[i]).id <= b,
    ensures
        ids_fit(ns),
    decreases ns.len(),
{
    if ns.len() > 0 {
        let q = ns.drop_last();
        assert forall|i: int| 0 <= i < q.len() implies (#[trigger] q[i]).id <= b by {
            assert(q[i] == ns[i]);
        }
        lemma_ids_fit_below(q, b);
        lemma_next_id_bound(q, b);
        assert(ns[ns.len() - 1].id <= b);
    }
}

/// The ids fit when each id plus the number of notes stays below
/// `u32::MAX`.
pub proof fn lemma_ids_fit_when_small(ns: Seq<NoteView>)
    requires
        forall|i: int| 0 <= i < ns.len() ==> (#[trigger] ns[i]).id + ns.len() < u32::MAX,
    ensures
        ids_fit(ns),
{
    if ns.len() > 0 {
        assert(ns[0].id + ns.len() < u32::MAX);
        let b: int = u32::MAX - 1 - ns.len();
        assert forall|i: int| 0 <= i < ns.len() implies (#[trigger] ns[i]).id <= b by {
            assert(ns[i].id + ns.len() < u32::MAX);
        }
        lemma_ids_fit_below(ns, b);
    }
}

proof fn lemma_join_tags_edges(tags: Seq<Seq<char>>)
    requires
        tags.len() > 0,
        forall|i: int| 0 <= i < tags.len() ==> trimmed(#[trigger] tags[i]),
    ensures
        join(tags, "|"@).len() == 0 || (!is_ws(join(tags, "|"@)[0]) && !is_ws(join(tags, "|"@).last())),
    decreases tags.len(),
{
    reveal_strlit("|");
    assert(trimmed(tags.last()));
    lemma_trimmed_edges(tags.last());
    if tags.len() == 1 {
        assert(trimmed(tags[0]));
        lemma_trimmed_edges(tags[0]);
    } else {
        let q = tags.drop_last();
        assert forall|i: int| 0 <= i < q.len() implies trimmed(#[trigger] q[i]) by {
            assert(q[i] == tags[i]);
        }
        lemma_join_tags_edges(q);
        let x = join(q, "|"@);
        let j = x + "|"@ + tags.last();
        assert(j[0] == (if x.len() > 0 { x[0] } else { '|' }));
        assert(j.last() == (if tags.last().len() > 0 { tags.last().last() } else { '|' }));
    }
}

/// A note is storable when its title and each of its tags are field text
/// without `|` in the tags, it has at least one tag, its password is unset
/// or non-empty field text, and its versions are numbered 1, 2, ... with
/// trimmed one-line content created no later than the note's last update.
pub proof fn lemma_storable_from_fields(n: NoteView)
    requires
        field_text(n.title),
        n.tags.len() > 0,
        forall|i: int| 0 <= i < n.tags.len() ==> field_text(#[trigger] n.tags[i]) && free_of(n.tags[i], '|'),
        match n.password {
            Some(p) => p.len() > 0 && field_text(p),
            None => true,
        },
        numbered_in_order(n.versions),
        forall|i: int|
            0 <= i < n.versions.len() ==> trimmed((#[trigger] n.versions[i]).content) && free_of(
                n.versions[i].content,
                '\n',
            ) && n.versions[i].created_at <= n.updated_at,
    ensures
        storable_note(n),
{
    reveal_strlit("|");
    assert forall|i: int| 0 <= i < n.tags.len() implies trimmed(#[trigger] n.tags[i]) && free_of(n.tags[i], ',')
        && free_of(n.tags[i], '\n') by {
        assert(field_text(n.tags[i]));
    }
    assert(free_of("|"@, ',') && free_of("|"@, '\n'));
    lemma_join_free(n.tags, "|"@, ',');
    lemma_join_free(n.tags, "|"@, '\n');
    lemma_join_tags_edges(n.tags);
    lemma_trimmed_edges(join(n.tags, "|"@));
    assert forall|i: int| 0 <= i < n.tags.len() implies free_of(#[trigger] n.tags[i], '|') by {
        assert(field_text(n.tags[i]) && free_of(n.tags[i], '|'));
    }
}

/// Saving the notes of a manager and reading the text back gives the same
/// notes, in the same order, for every manager whose notes are storable
/// (see `storable_note` and `lemma_storable_from_fields`) and whose ids fit
/// (see `ids_fit` and `lemma_ids_fit_when_small`); where the ids do not fit,
/// reading fails.  The trash is not saved, so it comes back empty;
/// autosave comes back on; the next id is above every id read.
pub proof fn law_save_then_load(m: ManagerView)
    requires
        forall|i: int| 0 <= i < m.notes.len() ==> storable_note(#[trigger] m.notes[i]),
    ensures
        ids_fit(m.notes) ==> (loaded(storage_text_of(m)) matches Some(r) && r.notes == m.notes && r.trash
            == Seq::<NoteView>::empty() && r.autosave && forall|i: int|
            0 <= i < m.notes.len() ==> (#[trigger] m.notes[i]).id < r.next_id),
        !ids_fit(m.notes) ==> loaded(storage_text_of(m)) is None,
{
    lemma_load_all(m.notes);
    lemma_storage_lines(m.notes);
    lemma_lines_terminated(all_lines(m.notes));
}

} // verus!
