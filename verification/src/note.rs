//! Notes, their versions and colour labels, and the timestamp format.
use vstd::prelude::*;
use crate::text::{
    append_chars, append_str, chars_of, split_lines, lemma_first_index_step, lemma_first_index_prefix,
    lemma_first_index_some, count_words, decimal, first_index, lowercase_of, pad2, push_decimal,
    push_pad2, str_eq, str_to_string, to_lowercase, trim, trim_str, views, word_count,
};

pub use crate::clock::now_timestamp;

verus! {

broadcast use vstd::string::group_string_axioms;

/// The time zone in which timestamps are shown: IST, 5 hours 30 minutes
/// ahead of UTC.
pub const TZ_OFFSET_SECS: u64 = 5 * 3600 + 30 * 60;

// ---------------------------------------------------------------------------
// Calendar
// ---------------------------------------------------------------------------

pub open spec fn leap_year(year: nat) -> bool {
    (year % 4 == 0 && year % 100 != 0) || year % 400 == 0
}

pub open spec fn days_in_year(year: nat) -> nat {
    if leap_year(year) { 366 } else { 365 }
}

/// The length of month `m` (0 for January) of `year`.
pub open spec fn month_length(year: nat, m: int) -> nat {
    if m == 1 {
        if leap_year(year) { 29 } else { 28 }
    } else if m == 3 || m == 5 || m == 8 || m == 10 {
        30
    } else {
        31
    }
}

/// The three-letter name of month `m` (0 for January).
pub open spec fn month_name(m: nat) -> Seq<char> {
    if m == 0 { "Jan"@ }
    else if m == 1 { "Feb"@ }
    else if m == 2 { "Mar"@ }
    else if m == 3 { "Apr"@ }
    else if m == 4 { "May"@ }
    else if m == 5 { "Jun"@ }
    else if m == 6 { "Jul"@ }
    else if m == 7 { "Aug"@ }
    else if m == 8 { "Sep"@ }
    else if m == 9 { "Oct"@ }
    else if m == 10 { "Nov"@ }
    else { "Dec"@ }
}

/// Counting `days` days from January 1st of `year`: the year reached and the
/// days left over within it.
pub open spec fn year_split(days: nat, year: nat) -> (nat, nat)
    decreases days,
{
    if days < days_in_year(year) {
        (year, days)
    } else {
        year_split((days - days_in_year(year)) as nat, year + 1)
    }
}

/// Counting `days` days into `year` from month `m`: the month reached and the
/// day within it (counting from 0).  Past December the month is 0, as the
/// scan that computes it leaves it.
pub open spec fn month_split(days: nat, year: nat, m: nat) -> (nat, nat)
    decreases 12 - m,
{
    if m >= 12 {
        (0, days)
    } else if days < month_length(year, m as int) {
        (m, days)
    } else {
        month_split((days - month_length(year, m as int)) as nat, year, m + 1)
    }
}

/// The text that `format_timestamp` gives for `ts`: "unknown" for 0, else the
/// date and time in IST as "DD Mon YYYY  hh:mm:ss IST".
pub open spec fn timestamp_text(ts: nat) -> Seq<char> {
    if ts == 0 {
        "unknown"@
    } else {
        let local: nat = (ts + TZ_OFFSET_SECS) as nat;
        let secs: nat = local % 86400;
        let ym = year_split(local / 86400, 1970);
        let md = month_split(ym.1, ym.0, 0);
        pad2(md.1 + 1) + " "@ + month_name(md.0) + " "@ + decimal(ym.0) + "  "@ + pad2(secs / 3600)
            + ":"@ + pad2((secs % 3600) / 60) + ":"@ + pad2(secs % 60) + " IST"@
    }
}

pub fn is_leap(year: u64) -> (b: bool)
    ensures
        b == leap_year(year as nat),
{
    (year % 4 == 0 && year % 100 != 0) || (year % 400 == 0)
}

pub fn month_days(year: u64) -> (r: [u64; 12])
    ensures
        forall|m: int| 0 <= m < 12 ==> r@[m] == month_length(year as nat, m),
{
    [31, if is_leap(year) { 29 } else { 28 }, 31, 30, 31, 30, 31, 31, 30, 31, 30, 31]
}

fn month_name_str(m: u64) -> (r: &'static str)
    ensures
        r@ == month_name(m as nat),
{
    if m == 0 { "Jan" }
    else if m == 1 { "Feb" }
    else if m == 2 { "Mar" }
    else if m == 3 { "Apr" }
    else if m == 4 { "May" }
    else if m == 5 { "Jun" }
    else if m == 6 { "Jul" }
    else if m == 7 { "Aug" }
    else if m == 8 { "Sep" }
    else if m == 9 { "Oct" }
    else if m == 10 { "Nov" }
    else { "Dec" }
}

/// Formats a Unix timestamp in IST.
pub fn format_timestamp(ts: u64) -> (r: String)
    requires
        ts + TZ_OFFSET_SECS <= u64::MAX,
    ensures
        r@ == timestamp_text(ts as nat),
{
    if ts == 0 {
        return str_to_string("unknown");
    }
    let local_ts = ts + TZ_OFFSET_SECS;
    let secs_in_day = local_ts % 86400;
    let days_total = local_ts / 86400;
    let hour = secs_in_day / 3600;
    let minute = (secs_in_day % 3600) / 60;
    let second = secs_in_day % 60;

    let mut year: u64 = 1970;
    let mut remaining_days = days_total;
    loop
        invariant
            1970 <= year,
            remaining_days <= days_total,
            (year - 1970) * 365 <= days_total - remaining_days,
            days_total <= u64::MAX / 86400,
            year_split(remaining_days as nat, year as nat) == year_split(days_total as nat, 1970),
        ensures
            year_split(days_total as nat, 1970) == (year as nat, remaining_days as nat),
            remaining_days < 366,
        decreases remaining_days,
    {
        let days_in_year: u64 = if is_leap(year) { 366 } else { 365 };
        if remaining_days < days_in_year {
            break;
        }
        remaining_days = remaining_days - days_in_year;
        year = year + 1;
    }
    let ghost ym = year_split(days_total as nat, 1970);
    assert(ym == (year as nat, remaining_days as nat));

    let month_lengths = month_days(year);
    let mut month: u64 = 0;
    let mut i: u64 = 0;
    let mut found = false;
    while i < 12 && !found
        invariant
            i <= 12,
            found ==> month_split(ym.1, ym.0, 0) == (month as nat, remaining_days as nat),
            !found ==> month == 0,
            remaining_days < 366,
            !found ==> month_split(remaining_days as nat, year as nat, i as nat) == month_split(ym.1, ym.0, 0),
            ym == (year as nat, ym.1),
            forall|m: int| 0 <= m < 12 ==> month_lengths@[m] == month_length(year as nat, m),
        decreases 12 - i + if found { 0int } else { 1int },
    {
        let ml = month_lengths[i as usize];
        if remaining_days < ml {
            month = i;
            found = true;
        } else {
            remaining_days = remaining_days - ml;
            i = i + 1;
        }
    }
    let ghost md = month_split(ym.1, ym.0, 0);
    assert(md == (month as nat, remaining_days as nat));
    let day = remaining_days + 1;

    let mut out = String::new();
    push_pad2(&mut out, day);
    append_str(&mut out, " ");
    append_str(&mut out, month_name_str(month));
    append_str(&mut out, " ");
    push_decimal(&mut out, year);
    append_str(&mut out, "  ");
    push_pad2(&mut out, hour);
    append_str(&mut out, ":");
    push_pad2(&mut out, minute);
    append_str(&mut out, ":");
    push_pad2(&mut out, second);
    append_str(&mut out, " IST");
    assert(out@ =~= timestamp_text(ts as nat));
    out
}


// ---------------------------------------------------------------------------
// Colour labels
// ---------------------------------------------------------------------------

#[derive(Debug, Clone, Copy, PartialEq, Eq, Structural)]
pub enum NoteColor {
    Default,
    Red,
    Green,
    Blue,
    Yellow,
    Magenta,
    Cyan,
}

/// The terminal escape sequence that shows a colour.
pub open spec fn ansi_code(c: NoteColor) -> Seq<char> {
    match c {
        NoteColor::Default => "\x1b[0m"@,
        NoteColor::Red => "\x1b[1;31m"@,
        NoteColor::Green => "\x1b[1;32m"@,
        NoteColor::Blue => "\x1b[1;34m"@,
        NoteColor::Yellow => "\x1b[1;33m"@,
        NoteColor::Magenta => "\x1b[1;35m"@,
        NoteColor::Cyan => "\x1b[1;36m"@,
    }
}

/// The lower-case name of a colour.
pub open spec fn color_name(c: NoteColor) -> Seq<char> {
    match c {
        NoteColor::Default => "default"@,
        NoteColor::Red => "red"@,
        NoteColor::Green => "green"@,
        NoteColor::Blue => "blue"@,
        NoteColor::Yellow => "yellow"@,
        NoteColor::Magenta => "magenta"@,
        NoteColor::Cyan => "cyan"@,
    }
}

/// The colour with the given lower-case name; any other text names the default.
pub open spec fn color_named(t: Seq<char>) -> NoteColor {
    if t == "red"@ {
        NoteColor::Red
    } else if t == "green"@ {
        NoteColor::Green
    } else if t == "blue"@ {
        NoteColor::Blue
    } else if t == "yellow"@ {
        NoteColor::Yellow
    } else if t == "magenta"@ {
        NoteColor::Magenta
    } else if t == "cyan"@ {
        NoteColor::Cyan
    } else {
        NoteColor::Default
    }
}

/// The colour chosen by a colour-menu entry; any other text picks the default.
pub open spec fn color_of_menu_entry(t: Seq<char>) -> NoteColor {
    if t == "1"@ {
        NoteColor::Red
    } else if t == "2"@ {
        NoteColor::Green
    } else if t == "3"@ {
        NoteColor::Blue
    } else if t == "4"@ {
        NoteColor::Yellow
    } else if t == "5"@ {
        NoteColor::Magenta
    } else if t == "6"@ {
        NoteColor::Cyan
    } else {
        NoteColor::Default
    }
}

pub open spec fn color_menu_text() -> Seq<char> {
    "  1) red  2) green  3) blue  4) yellow  5) magenta  6) cyan  0) default"@
}

impl NoteColor {
    pub fn to_ansi(&self) -> (r: &'static str)
        ensures
            r@ == ansi_code(*self),
    {
        match self {
            NoteColor::Default => "\x1b[0m",
            NoteColor::Red => "\x1b[1;31m",
            NoteColor::Green => "\x1b[1;32m",
            NoteColor::Blue => "\x1b[1;34m",
            NoteColor::Yellow => "\x1b[1;33m",
            NoteColor::Magenta => "\x1b[1;35m",
            NoteColor::Cyan => "\x1b[1;36m",
        }
    }

    pub fn as_str(&self) -> (r: &'static str)
        ensures
            r@ == color_name(*self),
    {
        match self {
            NoteColor::Default => "default",
            NoteColor::Red => "red",
            NoteColor::Green => "green",
            NoteColor::Blue => "blue",
            NoteColor::Yellow => "yellow",
            NoteColor::Magenta => "magenta",
            NoteColor::Cyan => "cyan",
        }
    }

    /// The colour named by `s`, ignoring surrounding whitespace and case.
    pub fn from_str(s: &str) -> (r: NoteColor)
        ensures
            r == color_named(lowercase_of(trim(s@))),
    {
        let t = trim_str(s);
        let l = to_lowercase(t.as_str());
        let l = l.as_str();
        if str_eq(l, "red") {
            NoteColor::Red
        } else if str_eq(l, "green") {
            NoteColor::Green
        } else if str_eq(l, "blue") {
            NoteColor::Blue
        } else if str_eq(l, "yellow") {
            NoteColor::Yellow
        } else if str_eq(l, "magenta") {
            NoteColor::Magenta
        } else if str_eq(l, "cyan") {
            NoteColor::Cyan
        } else {
            NoteColor::Default
        }
    }

    pub fn menu_str() -> (r: &'static str)
        ensures
            r@ == color_menu_text(),
    {
        "  1) red  2) green  3) blue  4) yellow  5) magenta  6) cyan  0) default"
    }

    /// The colour picked by a colour-menu entry, ignoring surrounding whitespace.
    pub fn from_menu(n: &str) -> (r: NoteColor)
        ensures
            r == color_of_menu_entry(trim(n@)),
    {
        let t = trim_str(n);
        let t = t.as_str();
        if str_eq(t, "1") {
            NoteColor::Red
        } else if str_eq(t, "2") {
            NoteColor::Green
        } else if str_eq(t, "3") {
            NoteColor::Blue
        } else if str_eq(t, "4") {
            NoteColor::Yellow
        } else if str_eq(t, "5") {
            NoteColor::Magenta
        } else if str_eq(t, "6") {
            NoteColor::Cyan
        } else {
            NoteColor::Default
        }
    }
}

// ---------------------------------------------------------------------------
// Versions
// ---------------------------------------------------------------------------

pub struct Version {
    pub version_number: u32,
    pub content: String,
    /// Unix timestamp of this version.
    pub created_at: u64,
}

#[verifier::ext_equal]
pub struct VersionView {
    pub version_number: u32,
    pub content: Seq<char>,
    pub created_at: u64,
}

impl View for Version {
    type V = VersionView;

    open spec fn view(&self) -> VersionView {
        VersionView {
            version_number: self.version_number,
            content: self.content@,
            created_at: self.created_at,
        }
    }
}

/// The line that shows a version: number, word and character counts,
/// timestamp, a "[current]" tag for the latest one, then the content.
pub open spec fn version_line(v: VersionView, is_current: bool) -> Seq<char> {
    "\x1b[1;36m  v"@ + decimal(v.version_number as nat) + "\x1b[0m \x1b[2m│ "@ + decimal(
        word_count(v.content),
    ) + " words │ "@ + decimal(v.content.len()) + " chars │ "@ + timestamp_text(v.created_at as nat)
        + (if is_current { " \x1b[1;32m[current]\x1b[0m"@ } else { ""@ })
        + "\x1b[0m\n      \x1b[0;37m"@ + v.content + "\x1b[0m"@
}

impl Version {
    /// A version stamped with the current time.
    pub fn new(version_number: u32, content: String) -> (r: Version)
        ensures
            r.version_number == version_number,
            r.content@ == content@,
    {
        Version { version_number, content, created_at: now_timestamp() }
    }

    pub fn new_with_ts(version_number: u32, content: String, created_at: u64) -> (r: Version)
        ensures
            r@ == (VersionView { version_number, content: content@, created_at }),
    {
        Version { version_number, content, created_at }
    }

    pub fn word_count(&self) -> (r: usize)
        ensures
            r == word_count(self.content@),
    {
        let cs = chars_of(self.content.as_str());
        count_words(&cs)
    }

    pub fn char_count(&self) -> (r: usize)
        ensures
            r == self.content@.len(),
    {
        let cs = chars_of(self.content.as_str());
        cs.len()
    }

    pub fn display_line(&self, is_current: bool) -> (r: String)
        requires
            self.created_at + TZ_OFFSET_SECS <= u64::MAX,
        ensures
            r@ == version_line(self@, is_current),
    {
        let mut out = String::new();
        append_str(&mut out, "\x1b[1;36m  v");
        push_decimal(&mut out, self.version_number as u64);
        append_str(&mut out, "\x1b[0m \x1b[2m│ ");
        push_decimal(&mut out, self.word_count() as u64);
        append_str(&mut out, " words │ ");
        push_decimal(&mut out, self.char_count() as u64);
        append_str(&mut out, " chars │ ");
        let ts = format_timestamp(self.created_at);
        append_str(&mut out, ts.as_str());
        if is_current {
            append_str(&mut out, " \x1b[1;32m[current]\x1b[0m");
        } else {
            append_str(&mut out, "");
        }
        append_str(&mut out, "\x1b[0m\n      \x1b[0;37m");
        append_str(&mut out, self.content.as_str());
        append_str(&mut out, "\x1b[0m");
        assert(out@ =~= version_line(self@, is_current));
        out
    }
}


// ---------------------------------------------------------------------------
// Notes
// ---------------------------------------------------------------------------

pub struct Note {
    pub id: u32,
    pub title: String,
    pub versions: Vec<Version>,
    pub pinned: bool,
    pub tags: Vec<String>,
    pub color: NoteColor,
    pub created_at: u64,
    pub updated_at: u64,
    pub password: Option<String>,
    pub reminder: Option<u64>,
    pub links: Vec<u32>,
}

#[verifier::ext_equal]
pub struct NoteView {
    pub id: u32,
    pub title: Seq<char>,
    pub versions: Seq<VersionView>,
    pub pinned: bool,
    pub tags: Seq<Seq<char>>,
    pub color: NoteColor,
    pub created_at: u64,
    pub updated_at: u64,
    pub password: Option<Seq<char>>,
    pub reminder: Option<u64>,
    pub links: Seq<u32>,
}

pub open spec fn version_views(vs: Seq<Version>) -> Seq<VersionView> {
    vs.map_values(|v: Version| v@)
}

pub open spec fn opt_view(p: Option<String>) -> Option<Seq<char>> {
    match p {
        Some(s) => Some(s@),
        None => None,
    }
}

impl View for Note {
    type V = NoteView;

    open spec fn view(&self) -> NoteView {
        NoteView {
            id: self.id,
            title: self.title@,
            versions: version_views(self.versions@),
            pinned: self.pinned,
            tags: views(self.tags@),
            color: self.color,
            created_at: self.created_at,
            updated_at: self.updated_at,
            password: opt_view(self.password),
            reminder: self.reminder,
            links: self.links@,
        }
    }
}

/// A new note: no versions, the single tag "general", default colour,
/// created and updated at `ts`.
pub open spec fn fresh_note(id: u32, title: Seq<char>, ts: u64) -> NoteView {
    NoteView {
        id,
        title,
        versions: seq![],
        pinned: false,
        tags: seq!["general"@],
        color: NoteColor::Default,
        created_at: ts,
        updated_at: ts,
        password: None,
        reminder: None,
        links: seq![],
    }
}

/// `n` with a new version numbered one past the count of versions.
pub open spec fn with_new_version(n: NoteView, content: Seq<char>, version_ts: u64, now: u64) -> NoteView {
    NoteView {
        versions: n.versions.push(
            VersionView {
                version_number: (n.versions.len() + 1) as u32,
                content,
                created_at: version_ts,
            },
        ),
        updated_at: now,
        ..n
    }
}

pub open spec fn has_number(vn: u32) -> spec_fn(VersionView) -> bool {
    |v: VersionView| v.version_number == vn
}

/// The position of the first version numbered `vn`.
pub open spec fn find_version(vs: Seq<VersionView>, vn: u32) -> Option<int> {
    first_index(vs, has_number(vn))
}

/// `n` with the first version numbered `vn` given new content and time.
pub open spec fn with_edited_version(n: NoteView, vn: u32, content: Seq<char>, version_ts: u64, now: u64) -> NoteView {
    match find_version(n.versions, vn) {
        Some(i) => NoteView {
            versions: n.versions.update(
                i,
                VersionView { version_number: n.versions[i].version_number, content, created_at: version_ts },
            ),
            updated_at: now,
            ..n
        },
        None => n,
    }
}

/// Every version carries its position plus one as its number.
pub open spec fn numbered_in_order(vs: Seq<VersionView>) -> bool {
    forall|i: int| 0 <= i < vs.len() ==> (#[trigger] vs[i]).version_number == i + 1
}

/// The total number of words over all versions.
pub open spec fn total_words_of(vs: Seq<VersionView>) -> nat
    decreases vs.len(),
{
    if vs.len() == 0 {
        0
    } else {
        total_words_of(vs.drop_last()) + word_count(vs.last().content)
    }
}

pub open spec fn reminder_due(n: NoteView, now: u64) -> bool {
    match n.reminder {
        Some(r) => r <= now,
        None => false,
    }
}

// Line-by-line comparison of two versions.

pub enum DiffLine {
    Same(Seq<char>),
    Changed(Seq<char>, Seq<char>),
    Removed(Seq<char>),
    Added(Seq<char>),
}

/// Lines compared by position: equal lines, changed lines, and the lines
/// that only the longer side has.
pub open spec fn diff_lines(a: Seq<Seq<char>>, b: Seq<Seq<char>>) -> Seq<DiffLine> {
    Seq::new(
        if a.len() >= b.len() { a.len() } else { b.len() },
        |i: int|
            if i < a.len() && i < b.len() {
                if a[i] == b[i] {
                    DiffLine::Same(a[i])
                } else {
                    DiffLine::Changed(a[i], b[i])
                }
            } else if i < a.len() {
                DiffLine::Removed(a[i])
            } else {
                DiffLine::Added(b[i])
            },
    )
}

pub open spec fn removed_text(a: Seq<char>) -> Seq<char> {
    "  \x1b[1;31m- "@ + a + "\x1b[0m\n"@
}

pub open spec fn added_text(b: Seq<char>) -> Seq<char> {
    "  \x1b[1;32m+ "@ + b + "\x1b[0m\n"@
}

pub open spec fn diff_line_text(d: DiffLine) -> Seq<char> {
    match d {
        DiffLine::Same(a) => "  \x1b[2m  "@ + a + "\x1b[0m\n"@,
        DiffLine::Changed(a, b) => removed_text(a) + added_text(b),
        DiffLine::Removed(a) => removed_text(a),
        DiffLine::Added(b) => added_text(b),
    }
}

pub open spec fn diff_header(v1: u32, v2: u32) -> Seq<char> {
    "\x1b[1;33m  Diff v"@ + decimal(v1 as nat) + " → v"@ + decimal(v2 as nat) + "\x1b[0m\n"@
}

/// The text of the comparison between versions `v1` and `v2` of a note, when
/// both exist (the first version carrying each number is taken).
pub open spec fn diff_text(n: NoteView, v1: u32, v2: u32) -> Option<Seq<char>> {
    match (find_version(n.versions, v1), find_version(n.versions, v2)) {
        (Some(i), Some(j)) => Some(
            diff_header(v1, v2) + crate::text::concat(
                diff_lines(crate::text::lines(n.versions[i].content), crate::text::lines(n.versions[j].content)).map_values(
                    |d: DiffLine| diff_line_text(d),
                ),
            ),
        ),
        _ => None,
    }
}


pub open spec fn latest_word_count_of(vs: Seq<VersionView>) -> nat {
    if vs.len() == 0 { 0 } else { word_count(vs.last().content) }
}

pub open spec fn latest_char_count_of(vs: Seq<VersionView>) -> nat {
    if vs.len() == 0 { 0 } else { vs.last().content.len() }
}

proof fn lemma_total_words_prefix(vs: Seq<VersionView>, i: int)
    requires
        0 <= i <= vs.len(),
    ensures
        total_words_of(vs.take(i)) <= total_words_of(vs),
    decreases vs.len() - i,
{
    if i < vs.len() {
        lemma_total_words_prefix(vs, i + 1);
        assert(vs.take(i + 1).drop_last() =~= vs.take(i));
    } else {
        assert(vs.take(i) =~= vs);
    }
}

impl Note {
    /// A new note stamped with the current time.
    pub fn new(id: u32, title: String) -> (r: Note)
        ensures
            r@ == fresh_note(id, title@, r.created_at),
    {
        let ts = now_timestamp();
        Note::new_at(id, title, ts)
    }

    /// A new note stamped with `ts`.
    pub fn new_at(id: u32, title: String, ts: u64) -> (r: Note)
        ensures
            r@ == fresh_note(id, title@, ts),
    {
        let mut tags: Vec<String> = Vec::new();
        tags.push(str_to_string("general"));
        let r = Note {
            id,
            title,
            versions: Vec::new(),
            pinned: false,
            tags,
            color: NoteColor::Default,
            created_at: ts,
            updated_at: ts,
            password: None,
            reminder: None,
            links: Vec::new(),
        };
        assert(r@.tags =~= seq!["general"@]);
        assert(r@.versions =~= Seq::<VersionView>::empty());
        r
    }

    /// Adds a version stamped with the current time.
    pub fn add_version(&mut self, new_content: String)
        requires
            old(self).versions.len() < u32::MAX,
        ensures
            final(self)@ == with_new_version(
                old(self)@,
                new_content@,
                final(self)@.versions.last().created_at,
                final(self).updated_at,
            ),
    {
        let version_ts = now_timestamp();
        let now = now_timestamp();
        self.add_version_at(new_content, version_ts, now);
    }

    pub fn add_version_at(&mut self, new_content: String, version_ts: u64, now: u64)
        requires
            old(self).versions.len() < u32::MAX,
        ensures
            final(self)@ == with_new_version(old(self)@, new_content@, version_ts, now),
    {
        let vn = self.versions.len() as u32 + 1;
        let v = Version::new_with_ts(vn, new_content, version_ts);
        self.versions.push(v);
        self.updated_at = now;
        assert(final(self)@.versions =~= old(self)@.versions.push(v@));
    }

    /// The position of the first version numbered `version_number`.
    pub fn version_position(&self, version_number: u32) -> (r: Option<usize>)
        ensures
            match r {
                Some(i) => find_version(self@.versions, version_number) == Some(i as int),
                None => find_version(self@.versions, version_number) is None,
            },
    {
        let mut i: usize = 0;
        while i < self.versions.len()
            invariant
                i <= self.versions.len(),
                find_version(self@.versions.take(i as int), version_number) is None,
            decreases self.versions.len() - i,
        {
            proof {
                lemma_first_index_step(self@.versions, has_number(version_number), i as int);
            }
            if self.versions[i].version_number == version_number {
                proof {
                    lemma_first_index_prefix(self@.versions, has_number(version_number), i + 1);
                }
                return Some(i);
            }
            i += 1;
        }
        proof {
            lemma_first_index_prefix(self@.versions, has_number(version_number), i as int);
        }
        None
    }

    /// Replaces the content of the first version numbered `version_number`
    /// and stamps it with the current time; false when there is none.
    pub fn edit_version(&mut self, version_number: u32, new_content: String) -> (r: bool)
        ensures
            r == find_version(old(self)@.versions, version_number) is Some,
            r ==> final(self)@ == with_edited_version(
                old(self)@,
                version_number,
                new_content@,
                final(self)@.versions[find_version(old(self)@.versions, version_number)->0].created_at,
                final(self).updated_at,
            ),
            !r ==> final(self)@ == old(self)@,
    {
        let version_ts = now_timestamp();
        let now = now_timestamp();
        proof {
            lemma_first_index_some(self@.versions, has_number(version_number));
        }
        self.edit_version_at(version_number, new_content, version_ts, now)
    }

    pub fn edit_version_at(&mut self, version_number: u32, new_content: String, version_ts: u64, now: u64) -> (r: bool)
        ensures
            r == find_version(old(self)@.versions, version_number) is Some,
            final(self)@ == with_edited_version(old(self)@, version_number, new_content@, version_ts, now),
    {
        match self.version_position(version_number) {
            Some(i) => {
                proof {
                    lemma_first_index_some(self@.versions, has_number(version_number));
                }
                let vn = self.versions[i].version_number;
                self.versions.set(i, Version::new_with_ts(vn, new_content, version_ts));
                self.updated_at = now;
                assert(final(self)@.versions =~= old(self)@.versions.update(
                    i as int,
                    VersionView { version_number: vn, content: new_content@, created_at: version_ts },
                ));
                true
            },
            None => false,
        }
    }

    pub fn get_latest_version(&self) -> (r: Option<&Version>)
        ensures
            match r {
                Some(v) => self.versions.len() > 0 && *v == self.versions@.last(),
                None => self.versions.len() == 0,
            },
    {
        if self.versions.len() == 0 {
            None
        } else {
            Some(&self.versions[self.versions.len() - 1])
        }
    }

    pub fn total_words(&self) -> (r: usize)
        requires
            total_words_of(self@.versions) <= usize::MAX,
        ensures
            r == total_words_of(self@.versions),
    {
        let mut sum: usize = 0;
        let mut i: usize = 0;
        while i < self.versions.len()
            invariant
                i <= self.versions.len(),
                sum == total_words_of(self@.versions.take(i as int)),
                total_words_of(self@.versions) <= usize::MAX,
            decreases self.versions.len() - i,
        {
            proof {
                assert(self@.versions.take(i + 1).drop_last() =~= self@.versions.take(i as int));
                lemma_total_words_prefix(self@.versions, i + 1);
            }
            let wc = self.versions[i].word_count();
            sum = sum + wc;
            i += 1;
        }
        assert(self@.versions.take(i as int) =~= self@.versions);
        sum
    }

    /// The total number of words, or `None` when it does not fit in a `usize`.
    pub fn total_words_checked(&self) -> (r: Option<usize>)
        ensures
            match r {
                Some(t) => t == total_words_of(self@.versions),
                None => total_words_of(self@.versions) > usize::MAX,
            },
    {
        let mut sum: usize = 0;
        let mut i: usize = 0;
        while i < self.versions.len()
            invariant
                i <= self.versions.len(),
                sum == total_words_of(self@.versions.take(i as int)),
            decreases self.versions.len() - i,
        {
            assert(self@.versions.take(i + 1).drop_last() =~= self@.versions.take(i as int));
            let wc = self.versions[i].word_count();
            if sum > usize::MAX - wc {
                proof {
                    lemma_total_words_prefix(self@.versions, i + 1);
                }
                return None;
            }
            sum = sum + wc;
            i += 1;
        }
        assert(self@.versions.take(i as int) =~= self@.versions);
        Some(sum)
    }

    pub fn latest_word_count(&self) -> (r: usize)
        ensures
            r == latest_word_count_of(self@.versions),
    {
        match self.get_latest_version() {
            Some(v) => v.word_count(),
            None => 0,
        }
    }

    pub fn latest_char_count(&self) -> (r: usize)
        ensures
            r == latest_char_count_of(self@.versions),
    {
        match self.get_latest_version() {
            Some(v) => v.char_count(),
            None => 0,
        }
    }

    /// The line-by-line comparison of versions `v1` and `v2`, or `None` when
    /// either does not exist.
    pub fn diff(&self, v1: u32, v2: u32) -> (r: Option<String>)
        ensures
            match r {
                Some(s) => diff_text(self@, v1, v2) == Some(s@),
                None => diff_text(self@, v1, v2) is None,
            },
    {
        let i = match self.version_position(v1) {
            Some(i) => i,
            None => return None,
        };
        let j = match self.version_position(v2) {
            Some(j) => j,
            None => return None,
        };
        proof {
            lemma_first_index_some(self@.versions, has_number(v1));
            lemma_first_index_some(self@.versions, has_number(v2));
        }
        let c1 = chars_of(self.versions[i].content.as_str());
        let c2 = chars_of(self.versions[j].content.as_str());
        let lines1 = split_lines(&c1);
        let lines2 = split_lines(&c2);
        let ghost a = lines1@.map_values(|l: Vec<char>| l@);
        let ghost b = lines2@.map_values(|l: Vec<char>| l@);
        let ghost ds = diff_lines(a, b);
        let ghost texts = ds.map_values(|d: DiffLine| diff_line_text(d));
        let mut out = String::new();
        append_str(&mut out, "\x1b[1;33m  Diff v");
        push_decimal(&mut out, v1 as u64);
        append_str(&mut out, " → v");
        push_decimal(&mut out, v2 as u64);
        append_str(&mut out, "\x1b[0m\n");
        let ghost header = out@;
        assert(header =~= diff_header(v1, v2));
        let n = if lines1.len() >= lines2.len() { lines1.len() } else { lines2.len() };
        let mut k: usize = 0;
        while k < n
            invariant
                k <= n,
                n == ds.len(),
                texts == ds.map_values(|d: DiffLine| diff_line_text(d)),
                ds == diff_lines(a, b),
                a == lines1@.map_values(|l: Vec<char>| l@),
                b == lines2@.map_values(|l: Vec<char>| l@),
                out@ == header + crate::text::concat(texts.take(k as int)),
            decreases n - k,
        {
            let ghost before = out@;
            if k < lines1.len() && k < lines2.len() {
                if crate::text::chars_eq(&lines1[k], &lines2[k]) {
                    append_str(&mut out, "  \x1b[2m  ");
                    append_chars(&mut out, &lines1[k]);
                    append_str(&mut out, "\x1b[0m\n");
                } else {
                    append_str(&mut out, "  \x1b[1;31m- ");
                    append_chars(&mut out, &lines1[k]);
                    append_str(&mut out, "\x1b[0m\n");
                    append_str(&mut out, "  \x1b[1;32m+ ");
                    append_chars(&mut out, &lines2[k]);
                    append_str(&mut out, "\x1b[0m\n");
                }
            } else if k < lines1.len() {
                append_str(&mut out, "  \x1b[1;31m- ");
                append_chars(&mut out, &lines1[k]);
                append_str(&mut out, "\x1b[0m\n");
            } else {
                append_str(&mut out, "  \x1b[1;32m+ ");
                append_chars(&mut out, &lines2[k]);
                append_str(&mut out, "\x1b[0m\n");
            }
            assert(texts.take(k + 1).drop_last() =~= texts.take(k as int));
            assert(out@ =~= before + texts[k as int]);
            k += 1;
        }
        assert(texts.take(n as int) =~= texts);
        Some(out)
    }

    /// Whether the reminder's time has come by `now`.
    pub fn is_reminder_due_at(&self, now: u64) -> (r: bool)
        ensures
            r == reminder_due(self@, now),
    {
        match self.reminder {
            Some(r) => r <= now,
            None => false,
        }
    }

    /// Whether the reminder's time has come by the current time.
    pub fn is_reminder_due(&self) -> (r: bool)
        ensures
            exists|now: u64| r == #[trigger] reminder_due(self@, now),
    {
        let now = now_timestamp();
        self.is_reminder_due_at(now)
    }
}

}
