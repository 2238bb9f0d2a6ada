//! Character-level text utilities used by the note model, the search
//! functions and the storage format.  Every function works on the `char`
//! view of a string and states its result over that view.
use vstd::prelude::*;

verus! {

broadcast use vstd::string::group_string_axioms;

// ---------------------------------------------------------------------------
// Whitespace and case
// ---------------------------------------------------------------------------

/// Whether `c` has the Unicode White_Space property, which is what
/// `char::is_whitespace` tests: the controls U+0009 to U+000D, the space,
/// U+0085, U+00A0, U+1680, U+2000 to U+200A, U+2028, U+2029, U+202F, U+205F
/// and U+3000.
pub open spec fn is_ws(c: char) -> bool {
    ('\t' <= c && c <= '\r') || c == ' ' || c == '\u{85}' || c == '\u{a0}' || c == '\u{1680}' || ('\u{2000}'
        <= c && c <= '\u{200a}') || c == '\u{2028}' || c == '\u{2029}' || c == '\u{202f}' || c == '\u{205f}'
        || c == '\u{3000}'
}

/// Tests the White_Space property, as `char::is_whitespace` does.
pub fn char_is_whitespace(c: char) -> (b: bool)
    ensures
        b == is_ws(c),
{
    ('\t' <= c && c <= '\r') || c == ' ' || c == '\u{85}' || c == '\u{a0}' || c == '\u{1680}' || ('\u{2000}'
        <= c && c <= '\u{200a}') || c == '\u{2028}' || c == '\u{2029}' || c == '\u{202f}' || c == '\u{205f}'
        || c == '\u{3000}'
}

pub open spec fn is_ascii_text(s: Seq<char>) -> bool {
    forall|i: int| 0 <= i < s.len() ==> #[trigger] s[i] <= '\x7f'
}

/// An ASCII capital letter turned into its small letter; any other
/// character kept.
pub open spec fn ascii_lower_char(c: char) -> char {
    if 'A' <= c && c <= 'Z' {
        ((c as u32) + 32) as char
    } else {
        c
    }
}

/// What `str::to_lowercase` returns for a string that is not all ASCII.
pub uninterp spec fn non_ascii_lowercase(s: Seq<char>) -> Seq<char>;

/// What `str::to_lowercase` returns: for ASCII text, each capital letter
/// becomes its small letter (the Unicode lowercase mapping of ASCII); other
/// text goes by the Unicode tables.
pub open spec fn lowercase_of(s: Seq<char>) -> Seq<char> {
    if is_ascii_text(s) {
        s.map_values(|c: char| ascii_lower_char(c))
    } else {
        non_ascii_lowercase(s)
    }
}

/// Calls `str::to_lowercase`.  For ASCII text the result maps A to Z onto
/// a to z and keeps every other character; for other text it is named
/// `non_ascii_lowercase(s@)` and nothing more is claimed of it.
#[verifier::external_body]
pub(crate) fn to_lowercase(s: &str) -> (r: String)
    ensures
        is_ascii_text(s@) ==> r@ == s@.map_values(|c: char| ascii_lower_char(c)),
        !is_ascii_text(s@) ==> r@ == non_ascii_lowercase(s@),
{
    s.to_lowercase()
}

/// Calls `String::push`.
#[verifier::external_body]
pub(crate) fn push_char(s: &mut String, c: char)
    ensures
        final(s)@ == old(s)@.push(c),
{
    s.push(c);
}

// ---------------------------------------------------------------------------
// Conversions between strings and character vectors
// ---------------------------------------------------------------------------

pub fn chars_of(s: &str) -> (r: Vec<char>)
    ensures
        r@ == s@,
{
    let mut v: Vec<char> = Vec::new();
    for c in it: s.chars()
        invariant
            v@ == it.seq().take(it.index() as int),
            it.seq() == s@,
    {
        v.push(c);
    }
    v
}

pub fn string_of(v: &Vec<char>) -> (r: String)
    ensures
        r@ == v@,
{
    let mut s = String::new();
    let mut i: usize = 0;
    while i < v.len()
        invariant
            i <= v.len(),
            s@ == v@.take(i as int),
        decreases v.len() - i,
    {
        push_char(&mut s, v[i]);
        assert(v@.take(i + 1) =~= v@.take(i as int).push(v@[i as int]));
        i += 1;
    }
    assert(v@.take(v.len() as int) =~= v@);
    s
}

pub fn str_to_string(s: &str) -> (r: String)
    ensures
        r@ == s@,
{
    let v = chars_of(s);
    string_of(&v)
}

pub fn append_str(s: &mut String, t: &str)
    ensures
        final(s)@ == old(s)@ + t@,
{
    s.append(t);
}

pub fn append_chars(s: &mut String, v: &Vec<char>)
    ensures
        final(s)@ == old(s)@ + v@,
{
    let mut i: usize = 0;
    while i < v.len()
        invariant
            i <= v.len(),
            s@ == old(s)@ + v@.take(i as int),
        decreases v.len() - i,
    {
        push_char(s, v[i]);
        assert(old(s)@ + v@.take(i + 1) =~= old(s)@ + v@.take(i as int) + seq![v@[i as int]]);
        i += 1;
    }
    assert(v@.take(v.len() as int) =~= v@);
}

/// The characters `s[lo..hi]`.
pub fn sub_chars(s: &Vec<char>, lo: usize, hi: usize) -> (r: Vec<char>)
    requires
        lo <= hi <= s.len(),
    ensures
        r@ == s@.subrange(lo as int, hi as int),
{
    let mut v: Vec<char> = Vec::new();
    let mut i = lo;
    while i < hi
        invariant
            lo <= i <= hi <= s.len(),
            v@ == s@.subrange(lo as int, i as int),
        decreases hi - i,
    {
        v.push(s[i]);
        assert(s@.subrange(lo as int, i + 1) =~= s@.subrange(lo as int, i as int).push(s@[i as int]));
        i += 1;
    }
    v
}

// ---------------------------------------------------------------------------
// Decimal numbers
// ---------------------------------------------------------------------------

pub open spec fn digit_char(d: nat) -> char {
    ((d + 48) as u8) as char
}

/// The decimal digits of `n`, most significant first, with no leading zeros.
pub open spec fn decimal(n: nat) -> Seq<char>
    decreases n,
{
    if n < 10 {
        seq![digit_char(n)]
    } else {
        decimal(n / 10).push(digit_char(n % 10))
    }
}

/// `n` in at least two digits, padded with a leading zero.
pub open spec fn pad2(n: nat) -> Seq<char> {
    if n < 10 {
        seq!['0'].add(decimal(n))
    } else {
        decimal(n)
    }
}

pub fn push_decimal(s: &mut String, n: u64)
    ensures
        final(s)@ == old(s)@ + decimal(n as nat),
    decreases n,
{
    if n < 10 {
        let c: char = ((n as u8) + 48) as char;
        push_char(s, c);
        assert(old(s)@.push(c) =~= old(s)@ + decimal(n as nat));
    } else {
        push_decimal(s, n / 10);
        let c: char = (((n % 10) as u8) + 48) as char;
        push_char(s, c);
        assert(old(s)@ + decimal((n / 10) as nat) + seq![c] =~= old(s)@ + decimal(n as nat));
    }
}

pub fn u64_to_decimal(n: u64) -> (r: String)
    ensures
        r@ == decimal(n as nat),
{
    let mut s = String::new();
    push_decimal(&mut s, n);
    assert(Seq::<char>::empty() + decimal(n as nat) =~= decimal(n as nat));
    s
}

pub fn push_pad2(s: &mut String, n: u64)
    ensures
        final(s)@ == old(s)@ + pad2(n as nat),
{
    if n < 10 {
        push_char(s, '0');
        push_decimal(s, n);
        assert(old(s)@.push('0') + decimal(n as nat) =~= old(s)@ + pad2(n as nat));
    } else {
        push_decimal(s, n);
    }
}

pub open spec fn is_digit(c: char) -> bool {
    '0' <= c <= '9'
}

pub open spec fn all_digits(s: Seq<char>) -> bool {
    forall|i: int| 0 <= i < s.len() ==> #[trigger] is_digit(s[i])
}

/// The number written by the decimal digits `s`.
pub open spec fn digits_value(s: Seq<char>) -> nat
    decreases s.len(),
{
    if s.len() == 0 {
        0
    } else {
        digits_value(s.drop_last()) * 10 + ((s.last() as nat) - 48) as nat
    }
}

/// The digits that an unsigned integer's `from_str` reads: an optional
/// leading `+` is dropped.
pub open spec fn unsigned_body(s: Seq<char>) -> Seq<char> {
    if s.len() > 0 && s[0] == '+' {
        s.drop_first()
    } else {
        s
    }
}

/// What `u64::from_str` accepts: an optional `+` followed by one or more
/// decimal digits whose value fits.
pub open spec fn parse_u64_spec(s: Seq<char>) -> Option<u64> {
    let d = unsigned_body(s);
    if d.len() > 0 && all_digits(d) && digits_value(d) <= u64::MAX {
        Some(digits_value(d) as u64)
    } else {
        None
    }
}

/// What `u32::from_str` accepts.
pub open spec fn parse_u32_spec(s: Seq<char>) -> Option<u32> {
    let d = unsigned_body(s);
    if d.len() > 0 && all_digits(d) && digits_value(d) <= u32::MAX {
        Some(digits_value(d) as u32)
    } else {
        None
    }
}

proof fn lemma_digits_value_monotone(s: Seq<char>, k: int)
    requires
        0 <= k <= s.len(),
        all_digits(s),
    ensures
        digits_value(s.take(k)) <= digits_value(s),
    decreases s.len() - k,
{
    if k < s.len() {
        lemma_digits_value_monotone(s, k + 1);
        assert(s.take(k + 1).drop_last() =~= s.take(k));
        assert(is_digit(s[k]));
    } else {
        assert(s.take(k) =~= s);
    }
}

/// Parses `s` as `u64::from_str` does.
pub fn parse_u64(s: &Vec<char>) -> (r: Option<u64>)
    ensures
        r == parse_u64_spec(s@),
{
    let n = s.len();
    let start: usize = if n > 0 && s[0] == '+' { 1 } else { 0 };
    let ghost d = unsigned_body(s@);
    assert(d =~= s@.skip(start as int));
    if start == n {
        return None;
    }
    let mut acc: u64 = 0;
    let mut i = start;
    while i < n
        invariant
            start <= i <= n == s.len(),
            d == s@.skip(start as int),
            d == unsigned_body(s@),
            d.len() == n - start,
            d.len() > 0,
            acc as nat == digits_value(d.take(i - start)),
            forall|j: int| 0 <= j < i - start ==> #[trigger] is_digit(d[j]),
        decreases n - i,
    {
        let c = s[i];
        if !('0' <= c && c <= '9') {
            assert(!is_digit(d[i - start]));
            return None;
        }
        let dv: u64 = (c as u64) - 48;
        assert(d.take(i - start + 1).drop_last() =~= d.take(i - start));
        assert(d.take(i - start + 1).last() == c);
        assert(digits_value(d.take(i - start + 1)) == acc * 10 + dv);
        if acc > (u64::MAX - dv) / 10 {
            proof {
                assert(acc * 10 + dv > u64::MAX) by (nonlinear_arith)
                    requires acc > (u64::MAX - dv) / 10, dv <= 9;
                if all_digits(d) {
                    lemma_digits_value_monotone(d, i - start + 1);
                }
            }
            return None;
        }
        assert(acc * 10 + dv <= u64::MAX) by (nonlinear_arith)
            requires acc <= (u64::MAX - dv) / 10, dv <= 9;
        acc = acc * 10 + dv;
        i += 1;
    }
    assert(d.take(n - start) =~= d);
    Some(acc)
}

/// Parses `s` as `u32::from_str` does.
pub fn parse_u32(s: &Vec<char>) -> (r: Option<u32>)
    ensures
        r == parse_u32_spec(s@),
{
    match parse_u64(s) {
        Some(v) => {
            if v <= 0xffff_ffff {
                Some(v as u32)
            } else {
                None
            }
        },
        None => {
            proof {
                let d = unsigned_body(s@);
                if d.len() > 0 && all_digits(d) && digits_value(d) <= u32::MAX {
                    assert(digits_value(d) <= u64::MAX);
                }
            }
            None
        },
    }
}


// ---------------------------------------------------------------------------
// Trimming
// ---------------------------------------------------------------------------

/// `s` without its leading whitespace.
pub open spec fn trim_start(s: Seq<char>) -> Seq<char>
    decreases s.len(),
{
    if s.len() > 0 && is_ws(s[0]) {
        trim_start(s.drop_first())
    } else {
        s
    }
}

/// `s` without its trailing whitespace.
pub open spec fn trim_end(s: Seq<char>) -> Seq<char>
    decreases s.len(),
{
    if s.len() > 0 && is_ws(s.last()) {
        trim_end(s.drop_last())
    } else {
        s
    }
}

/// What `str::trim` returns.
pub open spec fn trim(s: Seq<char>) -> Seq<char> {
    trim_end(trim_start(s))
}

/// Trims `s` as `str::trim` does.
pub fn trim_chars(s: &Vec<char>) -> (r: Vec<char>)
    ensures
        r@ == trim(s@),
{
    let n = s.len();
    let mut i: usize = 0;
    assert(s@.skip(0) =~= s@);
    while i < n && char_is_whitespace(s[i])
        invariant
            i <= n == s.len(),
            trim_start(s@) == trim_start(s@.skip(i as int)),
        decreases n - i,
    {
        assert(s@.skip(i as int).drop_first() =~= s@.skip(i + 1));
        i += 1;
    }
    assert(trim_start(s@.skip(i as int)) == s@.skip(i as int));
    assert(s@.skip(i as int) =~= s@.subrange(i as int, n as int));
    let mut j: usize = n;
    while j > i && char_is_whitespace(s[j - 1])
        invariant
            i <= j <= n == s.len(),
            trim_start(s@) == s@.subrange(i as int, n as int),
            trim_end(trim_start(s@)) == trim_end(s@.subrange(i as int, j as int)),
        decreases j - i,
    {
        assert(s@.subrange(i as int, j as int).drop_last() =~= s@.subrange(i as int, j - 1));
        j -= 1;
    }
    assert(trim_end(s@.subrange(i as int, j as int)) == s@.subrange(i as int, j as int));
    sub_chars(s, i, j)
}

/// Trims a string as `str::trim` does.
pub fn trim_str(s: &str) -> (r: String)
    ensures
        r@ == trim(s@),
{
    let v = chars_of(s);
    let t = trim_chars(&v);
    string_of(&t)
}

/// `s` without any trailing copies of `c` (what `str::trim_end_matches(c)` returns).
pub open spec fn trim_end_char(s: Seq<char>, c: char) -> Seq<char>
    decreases s.len(),
{
    if s.len() > 0 && s.last() == c {
        trim_end_char(s.drop_last(), c)
    } else {
        s
    }
}

pub fn trim_end_char_chars(s: &Vec<char>, c: char) -> (r: Vec<char>)
    ensures
        r@ == trim_end_char(s@, c),
{
    let mut j: usize = s.len();
    assert(s@.take(j as int) =~= s@);
    while j > 0 && s[j - 1] == c
        invariant
            j <= s.len(),
            trim_end_char(s@, c) == trim_end_char(s@.take(j as int), c),
        decreases j,
    {
        assert(s@.take(j as int).drop_last() =~= s@.take(j - 1));
        j -= 1;
    }
    assert(s@.take(j as int) =~= s@.subrange(0, j as int));
    sub_chars(s, 0, j)
}

// ---------------------------------------------------------------------------
// Prefixes and substrings
// ---------------------------------------------------------------------------

pub open spec fn starts_with(s: Seq<char>, p: Seq<char>) -> bool {
    p.len() <= s.len() && s.subrange(0, p.len() as int) == p
}

/// Whether `n` occurs in `h` at position `i`.
pub open spec fn occurs_at(h: Seq<char>, n: Seq<char>, i: int) -> bool {
    0 <= i && i + n.len() <= h.len() && h.subrange(i, i + n.len()) == n
}

/// What `str::contains` returns for a string pattern.
pub open spec fn contains(h: Seq<char>, n: Seq<char>) -> bool {
    exists|i: int| occurs_at(h, n, i)
}

/// Whether `p` occurs in `s` at position `i`.
pub fn matches_at(s: &Vec<char>, p: &Vec<char>, i: usize) -> (b: bool)
    ensures
        b == occurs_at(s@, p@, i as int),
{
    if i > s.len() || p.len() > s.len() - i {
        return false;
    }
    let mut k: usize = 0;
    while k < p.len()
        invariant
            i + p.len() <= s.len(),
            k <= p.len(),
            s@.subrange(i as int, i + k) == p@.take(k as int),
        decreases p.len() - k,
    {
        if s[i + k] != p[k] {
            assert(s@.subrange(i as int, i + p.len())[k as int] != p@[k as int]);
            return false;
        }
        assert(s@.subrange(i as int, i + k + 1) =~= s@.subrange(i as int, i + k).push(s@[i + k]));
        assert(p@.take(k + 1) =~= p@.take(k as int).push(p@[k as int]));
        k += 1;
    }
    assert(p@.take(p.len() as int) =~= p@);
    true
}

pub fn starts_with_chars(s: &Vec<char>, p: &Vec<char>) -> (b: bool)
    ensures
        b == starts_with(s@, p@),
{
    matches_at(s, p, 0)
}

/// Whether `n` occurs somewhere in `h`, as `str::contains` decides.
pub fn contains_chars(h: &Vec<char>, n: &Vec<char>) -> (b: bool)
    ensures
        b == contains(h@, n@),
{
    if n.len() > h.len() {
        return false;
    }
    let last = h.len() - n.len();
    let mut i: usize = 0;
    while i <= last
        invariant
            last == h.len() - n.len(),
            i <= last + 1,
            forall|j: int| 0 <= j < i ==> !occurs_at(h@, n@, j),
        decreases last + 1 - i,
    {
        if matches_at(h, n, i) {
            return true;
        }
        if i == last {
            return false;
        }
        i += 1;
    }
    false
}

// ---------------------------------------------------------------------------
// Lines and words
// ---------------------------------------------------------------------------

/// A line without its trailing carriage return, if it has one.
pub open spec fn strip_cr(line: Seq<char>) -> Seq<char> {
    if line.len() > 0 && line.last() == '\r' {
        line.drop_last()
    } else {
        line
    }
}

/// What `str::split(c)` yields: the pieces of `s` between the occurrences
/// of `c` (always at least one).
pub open spec fn split_on(s: Seq<char>, c: char) -> Seq<Seq<char>>
    decreases s.len(),
{
    if s.len() == 0 {
        seq![seq![]]
    } else {
        let p = split_on(s.drop_last(), c);
        if s.last() == c {
            p.push(seq![])
        } else {
            p.update(p.len() - 1, p.last().push(s.last()))
        }
    }
}

/// What `str::lines` yields: the text split at each `\n`, where a final
/// line ending is optional and a `\r` just before a `\n` is dropped (a `\r`
/// that ends the text stays in the last line).
pub open spec fn lines(s: Seq<char>) -> Seq<Seq<char>> {
    let p = split_on(s, '\n');
    if s.len() == 0 {
        seq![]
    } else if s.last() == '\n' {
        p.drop_last().map_values(|l: Seq<char>| strip_cr(l))
    } else {
        p.drop_last().map_values(|l: Seq<char>| strip_cr(l)).push(p.last())
    }
}

pub proof fn lemma_split_on_len(s: Seq<char>, c: char)
    ensures
        split_on(s, c).len() >= 1,
    decreases s.len(),
{
    if s.len() > 0 {
        lemma_split_on_len(s.drop_last(), c);
    }
}

pub open spec fn chars_views(v: Seq<Vec<char>>) -> Seq<Seq<char>> {
    v.map_values(|l: Vec<char>| l@)
}

pub fn strip_cr_chars(line: Vec<char>) -> (r: Vec<char>)
    ensures
        r@ == strip_cr(line@),
{
    if line.len() > 0 && line[line.len() - 1] == '\r' {
        let r = sub_chars(&line, 0, line.len() - 1);
        assert(r@ =~= line@.drop_last());
        r
    } else {
        line
    }
}

/// Splits `s` at each `c`, as `str::split(c)` does.
pub fn split_chars(s: &Vec<char>, c: char) -> (r: Vec<Vec<char>>)
    ensures
        chars_views(r@) == split_on(s@, c),
{
    let mut done: Vec<Vec<char>> = Vec::new();
    let n = s.len();
    let mut start: usize = 0;
    let mut i: usize = 0;
    assert(s@.take(0) =~= Seq::<char>::empty());
    assert(chars_views(done@).push(s@.subrange(0, 0)) =~= seq![Seq::<char>::empty()]);
    while i < n
        invariant
            start <= i <= n == s.len(),
            split_on(s@.take(i as int), c) == chars_views(done@).push(s@.subrange(start as int, i as int)),
        decreases n - i,
    {
        let ghost before = chars_views(done@);
        let ghost p = split_on(s@.take(i as int), c);
        proof {
            assert(s@.take(i + 1).drop_last() =~= s@.take(i as int));
            assert(s@.take(i + 1).last() == s@[i as int]);
            lemma_split_on_len(s@.take(i as int), c);
        }
        if s[i] == c {
            let piece = sub_chars(s, start, i);
            done.push(piece);
            assert(chars_views(done@) =~= before.push(s@.subrange(start as int, i as int)));
            start = i + 1;
            assert(s@.subrange(start as int, i + 1) =~= Seq::<char>::empty());
            assert(split_on(s@.take(i + 1), c) == p.push(seq![]));
            assert(chars_views(done@).push(s@.subrange(start as int, i + 1)) =~= p.push(seq![]));
        } else {
            assert(split_on(s@.take(i + 1), c) == p.update(p.len() - 1, p.last().push(s@[i as int])));
            assert(s@.subrange(start as int, i + 1) =~= s@.subrange(start as int, i as int).push(s@[i as int]));
            assert(chars_views(done@).push(s@.subrange(start as int, i + 1)) =~= p.update(
                p.len() - 1,
                p.last().push(s@[i as int]),
            ));
        }
        i += 1;
    }
    assert(s@.take(n as int) =~= s@);
    let last_piece = sub_chars(s, start, n);
    let ghost before = chars_views(done@);
    done.push(last_piece);
    assert(chars_views(done@) =~= before.push(last_piece@));
    done
}

/// Splits `s` into lines as `str::lines` does.
pub fn split_lines(s: &Vec<char>) -> (r: Vec<Vec<char>>)
    ensures
        chars_views(r@) == lines(s@),
{
    if s.len() == 0 {
        let out: Vec<Vec<char>> = Vec::new();
        assert(chars_views(out@) =~= lines(s@));
        return out;
    }
    let raw: Vec<Vec<char>> = split_chars(s, '\n');
    proof {
        lemma_split_on_len(s@, '\n');
    }
    let ghost rv = chars_views(raw@);
    let m = raw.len() - 1;
    let mut out: Vec<Vec<char>> = Vec::new();
    let mut k: usize = 0;
    while k < m
        invariant
            k <= m,
            m + 1 == raw.len(),
            rv == chars_views(raw@),
            chars_views(out@) == rv.take(k as int).map_values(|l: Seq<char>| strip_cr(l)),
        decreases m - k,
    {
        let line = sub_chars(&raw[k], 0, raw[k].len());
        assert(line@ =~= rv[k as int]);
        let stripped = strip_cr_chars(line);
        let ghost before = chars_views(out@);
        out.push(stripped);
        assert(rv.take(k + 1) =~= rv.take(k as int).push(rv[k as int]));
        assert(chars_views(out@) =~= before.push(stripped@));
        assert(chars_views(out@) =~= rv.take(k + 1).map_values(|l: Seq<char>| strip_cr(l)));
        k += 1;
    }
    assert(rv.take(m as int) =~= rv.drop_last());
    if s[s.len() - 1] != '\n' {
        let last = sub_chars(&raw[m], 0, raw[m].len());
        assert(last@ =~= rv.last());
        let ghost before = chars_views(out@);
        out.push(last);
        assert(chars_views(out@) =~= before.push(last@));
    }
    assert(chars_views(out@) =~= lines(s@));
    out
}

/// Whether a word of `s` begins at position `i`.
pub open spec fn word_starts_at(s: Seq<char>, i: int) -> bool {
    0 <= i < s.len() && !is_ws(s[i]) && (i == 0 || is_ws(s[i - 1]))
}

/// How many words `str::split_whitespace` yields: the number of maximal runs
/// of non-whitespace characters, counted by the position where each begins.
pub open spec fn word_count(s: Seq<char>) -> nat
    decreases s.len(),
{
    if s.len() == 0 {
        0
    } else {
        word_count(s.drop_last()) + if word_starts_at(s, s.len() - 1) { 1nat } else { 0nat }
    }
}

proof fn lemma_word_count_bound(s: Seq<char>)
    ensures
        word_count(s) <= s.len(),
    decreases s.len(),
{
    if s.len() > 0 {
        lemma_word_count_bound(s.drop_last());
    }
}

proof fn lemma_word_starts_prefix(s: Seq<char>, k: int)
    requires
        0 < k <= s.len(),
    ensures
        word_starts_at(s.take(k), k - 1) == word_starts_at(s, k - 1),
{
}

/// Counts the words of `s` as `split_whitespace().count()` does.
pub fn count_words(s: &Vec<char>) -> (r: usize)
    ensures
        r == word_count(s@),
{
    let mut count: usize = 0;
    let mut prev_ws = true;
    let mut i: usize = 0;
    while i < s.len()
        invariant
            i <= s.len(),
            count == word_count(s@.take(i as int)),
            count <= i,
            prev_ws == (i == 0 || is_ws(s@[i - 1])),
        decreases s.len() - i,
    {
        let ws = char_is_whitespace(s[i]);
        proof {
            assert(s@.take(i + 1).drop_last() =~= s@.take(i as int));
            lemma_word_starts_prefix(s@, i + 1);
        }
        if !ws && prev_ws {
            count += 1;
        }
        prev_ws = ws;
        i += 1;
    }
    assert(s@.take(s.len() as int) =~= s@);
    count
}

// ---------------------------------------------------------------------------
// Joining
// ---------------------------------------------------------------------------

/// `parts` joined by `sep`, as `join` on a slice of strings does.
pub open spec fn join(parts: Seq<Seq<char>>, sep: Seq<char>) -> Seq<char>
    decreases parts.len(),
{
    if parts.len() == 0 {
        seq![]
    } else if parts.len() == 1 {
        parts[0]
    } else {
        join(parts.drop_last(), sep) + sep + parts.last()
    }
}

pub open spec fn views(v: Seq<String>) -> Seq<Seq<char>> {
    v.map_values(|s: String| s@)
}

pub fn join_strings(parts: &Vec<String>, sep: &str) -> (r: String)
    ensures
        r@ == join(views(parts@), sep@),
{
    let mut r = String::new();
    let mut i: usize = 0;
    while i < parts.len()
        invariant
            i <= parts.len(),
            r@ == join(views(parts@).take(i as int), sep@),
        decreases parts.len() - i,
    {
        if i > 0 {
            append_str(&mut r, sep);
        }
        append_str(&mut r, parts[i].as_str());
        assert(views(parts@).take(i + 1).drop_last() =~= views(parts@).take(i as int));
        assert(views(parts@).take(i + 1).last() == parts@[i as int]@);
        if i == 0 {
            assert(r@ =~= parts@[0]@);
        }
        i += 1;
    }
    assert(views(parts@).take(parts.len() as int) =~= views(parts@));
    r
}


// ---------------------------------------------------------------------------
// Equality and searching in sequences
// ---------------------------------------------------------------------------

pub fn chars_eq(a: &Vec<char>, b: &Vec<char>) -> (r: bool)
    ensures
        r == (a@ == b@),
{
    if a.len() != b.len() {
        return false;
    }
    let r = matches_at(a, b, 0);
    assert(a@.subrange(0, b@.len() as int) =~= a@);
    r
}

/// Whether two strings hold the same characters.
pub fn str_eq(a: &str, b: &str) -> (r: bool)
    ensures
        r == (a@ == b@),
{
    let va = chars_of(a);
    let vb = chars_of(b);
    chars_eq(&va, &vb)
}

/// The position of the first element of `s` that satisfies `p`, if any.
pub open spec fn first_index<T>(s: Seq<T>, p: spec_fn(T) -> bool) -> Option<int>
    decreases s.len(),
{
    if s.len() == 0 {
        None
    } else {
        match first_index(s.drop_last(), p) {
            Some(i) => Some(i),
            None => if p(s.last()) { Some(s.len() - 1) } else { None },
        }
    }
}

pub proof fn lemma_first_index_none<T>(s: Seq<T>, p: spec_fn(T) -> bool)
    ensures
        (first_index(s, p) is None) == (forall|i: int| 0 <= i < s.len() ==> !p(#[trigger] s[i])),
    decreases s.len(),
{
    if s.len() > 0 {
        lemma_first_index_none(s.drop_last(), p);
        assert(forall|i: int| 0 <= i < s.len() - 1 ==> s.drop_last()[i] == s[i]);
    }
}

pub proof fn lemma_first_index_some<T>(s: Seq<T>, p: spec_fn(T) -> bool)
    ensures
        first_index(s, p) matches Some(i) ==> 0 <= i < s.len() && p(s[i]) && forall|j: int|
            0 <= j < i ==> !p(#[trigger] s[j]),
    decreases s.len(),
{
    if s.len() > 0 {
        lemma_first_index_some(s.drop_last(), p);
        lemma_first_index_none(s.drop_last(), p);
        assert(forall|i: int| 0 <= i < s.len() - 1 ==> s.drop_last()[i] == s[i]);
    }
}

/// `first_index` extends along prefixes: scanning one more element.
pub proof fn lemma_first_index_step<T>(s: Seq<T>, p: spec_fn(T) -> bool, i: int)
    requires
        0 <= i < s.len(),
    ensures
        first_index(s.take(i + 1), p) == match first_index(s.take(i), p) {
            Some(k) => Some(k),
            None => if p(s[i]) { Some(i) } else { None },
        },
{
    assert(s.take(i + 1).drop_last() =~= s.take(i));
}

/// A prefix that already holds a match decides `first_index` of the whole.
pub proof fn lemma_first_index_prefix<T>(s: Seq<T>, p: spec_fn(T) -> bool, i: int)
    requires
        0 <= i <= s.len(),
        first_index(s.take(i), p) is Some || i == s.len(),
    ensures
        first_index(s, p) == first_index(s.take(i), p),
    decreases s.len() - i,
{
    if i == s.len() {
        assert(s.take(i) =~= s);
    } else {
        lemma_first_index_step(s, p, i);
        lemma_first_index_prefix(s, p, i + 1);
    }
}

/// Sequences that agree on which elements satisfy `p` agree on `first_index`.
pub proof fn lemma_first_index_same<T>(s1: Seq<T>, s2: Seq<T>, p: spec_fn(T) -> bool)
    requires
        s1.len() == s2.len(),
        forall|k: int| 0 <= k < s1.len() ==> p(#[trigger] s1[k]) == p(s2[k]),
    ensures
        first_index(s1, p) == first_index(s2, p),
    decreases s1.len(),
{
    if s1.len() > 0 {
        assert(forall|k: int| 0 <= k < s1.len() - 1 ==> s1.drop_last()[k] == s1[k] && s2.drop_last()[k] == s2[k]);
        lemma_first_index_same(s1.drop_last(), s2.drop_last(), p);
    }
}

/// The concatenation of `parts`.
pub open spec fn concat(parts: Seq<Seq<char>>) -> Seq<char>
    decreases parts.len(),
{
    if parts.len() == 0 {
        seq![]
    } else {
        concat(parts.drop_last()) + parts.last()
    }
}


// ---------------------------------------------------------------------------
// Field-level helpers for the storage format
// ---------------------------------------------------------------------------

/// What `str::splitn(n, c)` yields for `n >= 1`: the first `n - 1` pieces
/// between occurrences of `c`, then the rest of the text.
pub open spec fn split_n(s: Seq<char>, n: nat, c: char) -> Seq<Seq<char>> {
    let p = split_on(s, c);
    if p.len() <= n {
        p
    } else {
        p.take(n - 1).push(join(p.skip(n - 1), seq![c]))
    }
}

/// What `str::strip_prefix(p)` returns.
pub open spec fn strip_prefix(s: Seq<char>, p: Seq<char>) -> Option<Seq<char>> {
    if starts_with(s, p) {
        Some(s.skip(p.len() as int))
    } else {
        None
    }
}

/// What `str::trim_start_matches(p)` returns for a non-empty pattern: `s`
/// without any number of leading copies of `p`.
pub open spec fn strip_all_prefix(s: Seq<char>, p: Seq<char>) -> Seq<char>
    decreases s.len(),
{
    if p.len() > 0 && starts_with(s, p) {
        strip_all_prefix(s.skip(p.len() as int), p)
    } else {
        s
    }
}

pub open spec fn is_char(c: char) -> spec_fn(char) -> bool {
    |x: char| x == c
}

/// The position of the first `c` in `s`, or the length of `s` when there is
/// none (what `s.find(c).unwrap_or(s.len())` gives, counted in characters).
pub open spec fn find_or_len(s: Seq<char>, c: char) -> int {
    match first_index(s, is_char(c)) {
        Some(i) => i,
        None => s.len() as int,
    }
}

pub fn find_or_len_chars(s: &Vec<char>, c: char) -> (r: usize)
    ensures
        r == find_or_len(s@, c),
        r <= s.len(),
{
    let mut i: usize = 0;
    while i < s.len()
        invariant
            i <= s.len(),
            first_index(s@.take(i as int), is_char(c)) is None,
        decreases s.len() - i,
    {
        proof {
            lemma_first_index_step(s@, is_char(c), i as int);
        }
        if s[i] == c {
            proof {
                lemma_first_index_prefix(s@, is_char(c), i + 1);
            }
            return i;
        }
        i += 1;
    }
    proof {
        lemma_first_index_prefix(s@, is_char(c), i as int);
    }
    i
}

pub fn strip_prefix_chars(s: &Vec<char>, p: &str) -> (r: Option<Vec<char>>)
    ensures
        match r {
            Some(v) => strip_prefix(s@, p@) == Some(v@),
            None => strip_prefix(s@, p@) is None,
        },
{
    let pv = chars_of(p);
    if starts_with_chars(s, &pv) {
        Some(sub_chars(s, pv.len(), s.len()))
    } else {
        None
    }
}

pub fn strip_all_prefix_chars(s: &Vec<char>, p: &str) -> (r: Vec<char>)
    ensures
        r@ == strip_all_prefix(s@, p@),
{
    let pv = chars_of(p);
    let mut i: usize = 0;
    assert(s@.skip(0) =~= s@);
    while pv.len() > 0 && matches_at(s, &pv, i)
        invariant
            i <= s.len(),
            strip_all_prefix(s@, pv@) == strip_all_prefix(s@.skip(i as int), pv@),
        decreases s.len() - i,
    {
        assert(s@.skip(i as int).subrange(0, pv@.len() as int) =~= s@.subrange(i as int, i + pv@.len()));
        assert(s@.skip(i as int).skip(pv@.len() as int) =~= s@.skip(i + pv@.len()));
        i = i + pv.len();
    }
    proof {
        if pv@.len() > 0 && i <= s.len() {
            assert(s@.skip(i as int).subrange(0, pv@.len() as int) =~= s@.subrange(i as int, i + pv@.len())
                || pv@.len() > s@.skip(i as int).len());
        }
    }
    sub_chars(s, i, s.len())
}

/// `parts[k..]` joined by `c`.
pub fn join_from(parts: &Vec<Vec<char>>, k: usize, c: char) -> (r: Vec<char>)
    requires
        k <= parts.len(),
    ensures
        r@ == join(chars_views(parts@).skip(k as int), seq![c]),
{
    let ghost pv = chars_views(parts@);
    let mut out: Vec<char> = Vec::new();
    let mut j: usize = k;
    assert(pv.subrange(k as int, k as int) =~= Seq::<Seq<char>>::empty());
    while j < parts.len()
        invariant
            k <= j <= parts.len(),
            pv == chars_views(parts@),
            out@ == join(pv.subrange(k as int, j as int), seq![c]),
        decreases parts.len() - j,
    {
        let ghost before = out@;
        if j > k {
            out.push(c);
        }
        let mut t: usize = 0;
        let ghost mid = out@;
        while t < parts[j].len()
            invariant
                t <= parts[j as int].len(),
                j < parts.len(),
                out@ == mid + parts[j as int]@.take(t as int),
            decreases parts[j as int].len() - t,
        {
            out.push(parts[j][t]);
            assert(parts[j as int]@.take(t + 1) =~= parts[j as int]@.take(t as int).push(parts[j as int]@[t as int]));
            t += 1;
        }
        assert(parts[j as int]@.take(t as int) =~= parts[j as int]@);
        assert(pv.subrange(k as int, j + 1).drop_last() =~= pv.subrange(k as int, j as int));
        assert(pv.subrange(k as int, j + 1).last() == pv[j as int]);
        if j == k {
            assert(out@ =~= pv[j as int]);
        } else {
            assert(out@ =~= before + seq![c] + pv[j as int]);
        }
        j += 1;
    }
    assert(pv.subrange(k as int, parts.len() as int) =~= pv.skip(k as int));
    out
}

/// Splits `s` as `str::splitn(n, c)` does.
pub fn split_n_chars(s: &Vec<char>, n: usize, c: char) -> (r: Vec<Vec<char>>)
    requires
        n >= 1,
    ensures
        chars_views(r@) == split_n(s@, n as nat, c),
{
    let parts = split_chars(s, c);
    if parts.len() <= n {
        return parts;
    }
    let rest = join_from(&parts, n - 1, c);
    let mut out: Vec<Vec<char>> = Vec::new();
    let mut j: usize = 0;
    let ghost pv = chars_views(parts@);
    while j < n - 1
        invariant
            j <= n - 1 < parts.len(),
            pv == chars_views(parts@),
            chars_views(out@) == pv.take(j as int),
        decreases n - 1 - j,
    {
        let piece = sub_chars(&parts[j], 0, parts[j].len());
        assert(piece@ =~= pv[j as int]);
        let ghost before = chars_views(out@);
        out.push(piece);
        assert(chars_views(out@) =~= before.push(piece@));
        assert(pv.take(j + 1) =~= pv.take(j as int).push(pv[j as int]));
        assert(chars_views(out@) =~= pv.take(j + 1));
        j += 1;
    }
    let ghost before = chars_views(out@);
    out.push(rest);
    assert(chars_views(out@) =~= before.push(rest@));
    out
}

}
