//! Character-level text model shared by the parsers and renderers.
//!
//! Strings are handled through their `Seq<char>` views. The Unicode
//! properties that std computes from its tables (`White_Space`,
//! alphanumeric, lowercase mapping) are stated exactly on ASCII and named
//! for everything else.

use vstd::prelude::*;

verus! {

// ---------------------------------------------------------------------
// Unicode properties
// ---------------------------------------------------------------------

/// The Unicode `Alphabetic` or `Numeric` property of a character outside ASCII.
pub uninterp spec fn non_ascii_alphanumeric(c: char) -> bool;

/// The Unicode lowercase mapping of a string that holds a non-ASCII character.
pub uninterp spec fn non_ascii_lowercase(s: Seq<char>) -> Seq<char>;

pub open spec fn is_ascii_char(c: char) -> bool {
    (c as u32) < 128
}

/// The Unicode `White_Space` property (PropList.txt): TAB through CR,
/// SPACE, NEL, NO-BREAK SPACE, OGHAM SPACE MARK, EN QUAD through HAIR SPACE,
/// LINE and PARAGRAPH SEPARATOR, NARROW NO-BREAK SPACE, MEDIUM MATHEMATICAL
/// SPACE and IDEOGRAPHIC SPACE.
pub open spec fn white_space(c: char) -> bool {
    let u = c as u32;
    ||| 9 <= u <= 13
    ||| u == 0x20
    ||| u == 0x85
    ||| u == 0xA0
    ||| u == 0x1680
    ||| 0x2000 <= u <= 0x200A
    ||| u == 0x2028
    ||| u == 0x2029
    ||| u == 0x202F
    ||| u == 0x205F
    ||| u == 0x3000
}

/// Unicode alphanumeric (`Alphabetic` or `Numeric`): on ASCII, exactly
/// `a-z`, `A-Z` and `0-9`.
pub open spec fn alphanumeric(c: char) -> bool {
    if is_ascii_char(c) {
        ('a' <= c && c <= 'z') || ('A' <= c && c <= 'Z') || ('0' <= c && c <= '9')
    } else {
        non_ascii_alphanumeric(c)
    }
}

pub open spec fn all_ascii(s: Seq<char>) -> bool {
    forall|i: int| 0 <= i < s.len() ==> is_ascii_char(#[trigger] s[i])
}

pub open spec fn ascii_lower_char(c: char) -> char {
    if 'A' <= c && c <= 'Z' {
        ((c as u32) + 32) as char
    } else {
        c
    }
}

/// ASCII-only lowercasing: `A-Z` become `a-z`, every other character stays.
pub open spec fn ascii_lowercase(s: Seq<char>) -> Seq<char> {
    s.map_values(|c: char| ascii_lower_char(c))
}

/// Unicode lowercase of a whole string (as `str::to_lowercase`).
pub open spec fn lowercase(s: Seq<char>) -> Seq<char> {
    if all_ascii(s) {
        ascii_lowercase(s)
    } else {
        non_ascii_lowercase(s)
    }
}

/// `char::is_whitespace`: holds exactly of the characters with the Unicode
/// `White_Space` property.
#[verifier::external_body]
pub(crate) fn is_whitespace(c: char) -> (b: bool)
    ensures
        b == white_space(c),
{
    c.is_whitespace()
}

/// `char::is_alphanumeric`: `Alphabetic` or `Numeric`; on ASCII exactly
/// letters and digits.
#[verifier::external_body]
pub(crate) fn is_alphanumeric(c: char) -> (b: bool)
    ensures
        b == alphanumeric(c),
        !is_ascii_char(c) ==> b == non_ascii_alphanumeric(c),
{
    c.is_alphanumeric()
}

/// `str::to_lowercase`: the Unicode lowercase of the string; a string of
/// ASCII characters maps each of `A-Z` to `a-z` and keeps the rest.
#[verifier::external_body]
pub(crate) fn to_lowercase(s: &str) -> (r: String)
    ensures
        r@ == lowercase(s@),
        !all_ascii(s@) ==> r@ == non_ascii_lowercase(s@),
{
    s.to_lowercase()
}

/// `String::push`: appends one character.
#[verifier::external_body]
pub(crate) fn push_char(s: &mut String, c: char)
    ensures
        final(s)@ == old(s)@.push(c),
{
    s.push(c)
}

// ---------------------------------------------------------------------
// Conversions between strings and character vectors
// ---------------------------------------------------------------------

/// The characters of a string slice, in order.
pub fn chars_of(s: &str) -> (v: Vec<char>)
    ensures
        v@ == s@,
{
    let mut v: Vec<char> = Vec::new();
    for c in it: s.chars()
        invariant
            v@ == it.seq().take(it.index() as int),
    {
        v.push(c);
    }
    v
}

/// Appends `v[lo..hi]` to `out`.
pub fn push_range(out: &mut String, v: &Vec<char>, lo: usize, hi: usize)
    requires
        lo <= hi <= v@.len(),
    ensures
        final(out)@ == old(out)@ + v@.subrange(lo as int, hi as int),
{
    let mut i = lo;
    while i < hi
        invariant
            lo <= i <= hi <= v@.len(),
            out@ == old(out)@ + v@.subrange(lo as int, i as int),
        decreases hi - i,
    {
        push_char(out, v[i]);
        i = i + 1;
        assert(v@.subrange(lo as int, i as int) == v@.subrange(lo as int, i - 1).push(v@[i - 1]));
    }
}

/// A new string holding `v[lo..hi]`.
pub fn string_of(v: &Vec<char>, lo: usize, hi: usize) -> (s: String)
    requires
        lo <= hi <= v@.len(),
    ensures
        s@ == v@.subrange(lo as int, hi as int),
{
    let mut s = String::new();
    push_range(&mut s, v, lo, hi);
    s
}

// ---------------------------------------------------------------------
// Trimming
// ---------------------------------------------------------------------

/// Drops the leading `White_Space` characters.
pub open spec fn trim_start(s: Seq<char>) -> Seq<char>
    decreases s.len(),
{
    if s.len() > 0 && white_space(s[0]) {
        trim_start(s.drop_first())
    } else {
        s
    }
}

/// Drops the trailing `White_Space` characters.
pub open spec fn trim_end(s: Seq<char>) -> Seq<char>
    decreases s.len(),
{
    if s.len() > 0 && white_space(s.last()) {
        trim_end(s.drop_last())
    } else {
        s
    }
}

/// `str::trim`: drops leading and trailing `White_Space` characters.
pub open spec fn trim(s: Seq<char>) -> Seq<char> {
    trim_end(trim_start(s))
}

/// A line or text is blank when nothing but white space is in it.
pub open spec fn is_blank(s: Seq<char>) -> bool {
    trim(s).len() == 0
}

/// The bounds of `trim_start(v[lo..hi])` inside `v`.
pub fn trim_start_from(v: &Vec<char>, lo: usize, hi: usize) -> (a: usize)
    requires
        lo <= hi <= v@.len(),
    ensures
        lo <= a <= hi,
        trim_start(v@.subrange(lo as int, hi as int)) == v@.subrange(a as int, hi as int),
{
    let mut a = lo;
    while a < hi && is_whitespace(v[a])
        invariant
            lo <= a <= hi <= v@.len(),
            trim_start(v@.subrange(lo as int, hi as int)) == trim_start(
                v@.subrange(a as int, hi as int),
            ),
        decreases hi - a,
    {
        assert(v@.subrange(a as int, hi as int).drop_first() == v@.subrange(a + 1, hi as int));
        a = a + 1;
    }
    a
}

/// The end of `trim_end(v[lo..hi])` inside `v`.
pub fn trim_end_from(v: &Vec<char>, lo: usize, hi: usize) -> (b: usize)
    requires
        lo <= hi <= v@.len(),
    ensures
        lo <= b <= hi,
        trim_end(v@.subrange(lo as int, hi as int)) == v@.subrange(lo as int, b as int),
{
    let mut b = hi;
    while b > lo && is_whitespace(v[b - 1])
        invariant
            lo <= b <= hi <= v@.len(),
            trim_end(v@.subrange(lo as int, hi as int)) == trim_end(
                v@.subrange(lo as int, b as int),
            ),
        decreases b - lo,
    {
        assert(v@.subrange(lo as int, b as int).drop_last() == v@.subrange(lo as int, b - 1));
        b = b - 1;
    }
    b
}

/// The bounds of `trim(v[lo..hi])` inside `v`.
pub fn trim_bounds(v: &Vec<char>, lo: usize, hi: usize) -> (r: (usize, usize))
    requires
        lo <= hi <= v@.len(),
    ensures
        lo <= r.0 <= r.1 <= hi,
        trim(v@.subrange(lo as int, hi as int)) == v@.subrange(r.0 as int, r.1 as int),
{
    let a = trim_start_from(v, lo, hi);
    let b = trim_end_from(v, a, hi);
    (a, b)
}

/// Whether `v[lo..hi]` is blank.
pub fn blank_range(v: &Vec<char>, lo: usize, hi: usize) -> (b: bool)
    requires
        lo <= hi <= v@.len(),
    ensures
        b == is_blank(v@.subrange(lo as int, hi as int)),
{
    let (a, e) = trim_bounds(v, lo, hi);
    a == e
}

// ---------------------------------------------------------------------
// Searching
// ---------------------------------------------------------------------

/// `p` occurs in `s` starting at index `i`.
pub open spec fn occurs_at(s: Seq<char>, i: int, p: Seq<char>) -> bool {
    0 <= i && i + p.len() <= s.len() && s.subrange(i, i + p.len()) == p
}

/// `i` is the first index at or after `from` where `p` occurs in `s`.
pub open spec fn first_occurrence_is(s: Seq<char>, p: Seq<char>, from: int, i: int) -> bool {
    from <= i && occurs_at(s, i, p) && forall|j: int| from <= j < i ==> !occurs_at(s, j, p)
}

/// The first index at or after `from` where `p` occurs in `s` (`str::find`).
pub open spec fn find_from(s: Seq<char>, p: Seq<char>, from: int) -> Option<int> {
    if exists|i: int| from <= i && occurs_at(s, i, p) {
        Some(choose|i: int| first_occurrence_is(s, p, from, i))
    } else {
        None
    }
}

pub proof fn lemma_find_from_is(s: Seq<char>, p: Seq<char>, from: int, i: int)
    requires
        first_occurrence_is(s, p, from, i),
    ensures
        find_from(s, p, from) == Some(i),
{
    let k = choose|k: int| first_occurrence_is(s, p, from, k);
    assert(first_occurrence_is(s, p, from, k));
    if k < i {
        assert(!occurs_at(s, k, p));
    } else if i < k {
        assert(!occurs_at(s, i, p));
    }
}

/// Whether `needle` occurs in `hay` at index `i`.
pub fn matches_at(hay: &Vec<char>, i: usize, needle: &Vec<char>) -> (b: bool)
    ensures
        b == occurs_at(hay@, i as int, needle@),
{
    if i > hay.len() || needle.len() > hay.len() - i {
        return false;
    }
    let mut k: usize = 0;
    while k < needle.len()
        invariant
            i + needle@.len() <= hay@.len() <= usize::MAX,
            k <= needle@.len(),
            forall|j: int| 0 <= j < k ==> hay@[i + j] == needle@[j],
        decreases needle@.len() - k,
    {
        if hay[i + k] != needle[k] {
            assert(hay@.subrange(i as int, i + needle@.len())[k as int] != needle@[k as int]);
            return false;
        }
        k = k + 1;
    }
    assert(hay@.subrange(i as int, i + needle@.len()) =~= needle@);
    true
}

/// `str::find` from index `from`.
pub fn find_chars(hay: &Vec<char>, from: usize, needle: &Vec<char>) -> (r: Option<usize>)
    ensures
        match r {
            Some(i) => find_from(hay@, needle@, from as int) == Some(i as int)
                && first_occurrence_is(hay@, needle@, from as int, i as int),
            None => find_from(hay@, needle@, from as int) is None,
        },
{
    let mut i = from;
    loop
        invariant_except_break
            from <= i,
            forall|j: int| from <= j < i ==> !occurs_at(hay@, j, needle@),
        ensures
            from <= i,
            hay@.len() <= i,
            forall|j: int| from <= j <= i ==> !occurs_at(hay@, j, needle@),
        decreases hay@.len() + 1 - i,
    {
        if matches_at(hay, i, needle) {
            proof {
                lemma_find_from_is(hay@, needle@, from as int, i as int);
            }
            return Some(i);
        }
        if i >= hay.len() {
            break;
        }
        i = i + 1;
    }
    assert(!exists|k: int| from <= k && occurs_at(hay@, k, needle@));
    None
}

// ---------------------------------------------------------------------
// Decimal numerals
// ---------------------------------------------------------------------

pub open spec fn digit_char(d: nat) -> char {
    (('0' as u32) + d) as char
}

/// The decimal numeral of `n`, without leading zeros.
pub open spec fn decimal(n: nat) -> Seq<char>
    decreases n,
{
    if n < 10 {
        seq![digit_char(n)]
    } else {
        decimal(n / 10).push(digit_char(n % 10))
    }
}

/// The decimal numeral of `n` (as `u64`'s `Display`).
pub fn decimal_string(n: u64) -> (s: String)
    ensures
        s@ == decimal(n as nat),
    decreases n,
{
    let d: u64 = n % 10;
    let c = char_of_digit(d);
    if n < 10 {
        let mut s = String::new();
        push_char(&mut s, c);
        s
    } else {
        let mut s = decimal_string(n / 10);
        push_char(&mut s, c);
        s
    }
}

fn char_of_digit(d: u64) -> (c: char)
    requires
        d < 10,
    ensures
        c == digit_char(d as nat),
{
    if d == 0 { '0' }
    else if d == 1 { '1' }
    else if d == 2 { '2' }
    else if d == 3 { '3' }
    else if d == 4 { '4' }
    else if d == 5 { '5' }
    else if d == 6 { '6' }
    else if d == 7 { '7' }
    else if d == 8 { '8' }
    else { '9' }
}

} // verus!

verus! {

// ---------------------------------------------------------------------
// Lines
// ---------------------------------------------------------------------

/// The end of the line that starts at `i`: the first index at or after `i`
/// that holds `'\n'`, or the length of `s` when there is none.
pub open spec fn line_end(s: Seq<char>, i: int) -> int
    decreases s.len() - i,
{
    if i < 0 || i >= s.len() {
        s.len() as int
    } else if s[i] == '\n' {
        i
    } else {
        line_end(s, i + 1)
    }
}

pub proof fn lemma_line_end(s: Seq<char>, i: int)
    requires
        0 <= i <= s.len(),
    ensures
        i <= line_end(s, i) <= s.len(),
        line_end(s, i) < s.len() ==> s[line_end(s, i)] == '\n',
        forall|k: int| i <= k < line_end(s, i) ==> s[k] != '\n',
    decreases s.len() - i,
{
    if i < s.len() && s[i] != '\n' {
        lemma_line_end(s, i + 1);
    }
}

/// The end of the line that starts at `i`.
pub fn find_line_end(v: &Vec<char>, i: usize) -> (e: usize)
    requires
        i <= v@.len(),
    ensures
        e == line_end(v@, i as int),
        i <= e <= v@.len(),
{
    let mut e = i;
    while e < v.len() && v[e] != '\n'
        invariant
            i <= e <= v@.len(),
            line_end(v@, i as int) == line_end(v@, e as int),
        decreases v@.len() - e,
    {
        e = e + 1;
    }
    e
}

/// The text of the line `s[i..e]`, where `e` ends it: a `'\r'` just before
/// the `'\n'` is not part of the line.
pub open spec fn line_text(s: Seq<char>, i: int, e: int) -> Seq<char> {
    if e < s.len() && e > i && s[e - 1] == '\r' {
        s.subrange(i, e - 1)
    } else {
        s.subrange(i, e)
    }
}

/// The lines from index `i` on, as `str::lines` gives them.
pub open spec fn lines_from(s: Seq<char>, i: int) -> Seq<Seq<char>>
    decreases s.len() + 1 - i,
    via lines_from_decreases
{
    if i < 0 || i >= s.len() {
        Seq::empty()
    } else {
        let e = line_end(s, i);
        seq![line_text(s, i, e)] + lines_from(s, e + 1)
    }
}

#[via_fn]
proof fn lines_from_decreases(s: Seq<char>, i: int) {
    if 0 <= i < s.len() {
        lemma_line_end(s, i);
    }
}

/// `str::lines`: split at `'\n'` (dropping a `'\r'` before it), with no
/// empty line after a final `'\n'`.
pub open spec fn lines_of(s: Seq<char>) -> Seq<Seq<char>> {
    lines_from(s, 0)
}

/// Joins lines with `'\n'` between them.
pub open spec fn join_lines(ls: Seq<Seq<char>>) -> Seq<char>
    decreases ls.len(),
{
    if ls.len() == 0 {
        Seq::empty()
    } else if ls.len() == 1 {
        ls[0]
    } else {
        join_lines(ls.drop_last()) + seq!['\n'] + ls.last()
    }
}

} // verus!

verus! {

// ---------------------------------------------------------------------
// Blank text and lines without blanks
// ---------------------------------------------------------------------

/// Every character is white space.
pub open spec fn all_white(s: Seq<char>) -> bool {
    forall|k: int| 0 <= k < s.len() ==> white_space(#[trigger] s[k])
}

pub proof fn lemma_trim_start_shape(s: Seq<char>)
    ensures
        trim_start(s).len() <= s.len(),
        trim_start(s) == s.subrange(s.len() - trim_start(s).len(), s.len() as int),
        all_white(s.subrange(0, s.len() - trim_start(s).len())),
        trim_start(s).len() > 0 ==> !white_space(trim_start(s)[0]),
        all_white(s) ==> trim_start(s).len() == 0,
    decreases s.len(),
{
    if s.len() > 0 && white_space(s[0]) {
        let r = s.drop_first();
        lemma_trim_start_shape(r);
        let n = s.len() - trim_start(s).len();
        assert forall|k: int| 0 <= k < n implies white_space(#[trigger] s.subrange(0, n)[k]) by {
            if k > 0 {
                assert(s.subrange(0, n)[k] == r.subrange(0, n - 1)[k - 1]);
            }
        }
        if all_white(s) {
            assert forall|k: int| 0 <= k < r.len() implies white_space(#[trigger] r[k]) by {
                assert(r[k] == s[k + 1]);
            }
        }
    } else {
        assert(s.subrange(0, 0) == Seq::<char>::empty());
        assert(s.subrange(0, s.len() as int) == s);
    }
}

pub proof fn lemma_trim_end_shape(s: Seq<char>)
    ensures
        trim_end(s).len() <= s.len(),
        trim_end(s) == s.subrange(0, trim_end(s).len() as int),
        all_white(s.subrange(trim_end(s).len() as int, s.len() as int)),
        trim_end(s).len() > 0 ==> !white_space(trim_end(s).last()),
        trim_end(s).len() == 0 ==> all_white(s),
    decreases s.len(),
{
    if s.len() > 0 && white_space(s.last()) {
        let r = s.drop_last();
        lemma_trim_end_shape(r);
        let n = trim_end(s).len() as int;
        assert forall|k: int| 0 <= k < s.len() - n implies white_space(
            #[trigger] s.subrange(n, s.len() as int)[k],
        ) by {
            if n + k < r.len() {
                assert(s.subrange(n, s.len() as int)[k] == r.subrange(n, r.len() as int)[k]);
            }
        }
        if trim_end(s).len() == 0 {
            assert forall|k: int| 0 <= k < s.len() implies white_space(#[trigger] s[k]) by {
                if k < r.len() {
                    assert(s[k] == r[k]);
                }
            }
        }
    } else {
        assert(s.subrange(0, s.len() as int) == s);
        assert(s.subrange(s.len() as int, s.len() as int) == Seq::<char>::empty());
    }
}

/// Text is blank exactly when all of it is white space.
pub proof fn lemma_blank_iff_all_white(s: Seq<char>)
    ensures
        is_blank(s) <==> all_white(s),
{
    lemma_trim_start_shape(s);
    let t = trim_start(s);
    lemma_trim_end_shape(t);
    if is_blank(s) {
        let n = s.len() - t.len();
        assert forall|k: int| 0 <= k < s.len() implies white_space(#[trigger] s[k]) by {
            if k < n {
                assert(s[k] == s.subrange(0, n)[k]);
            } else {
                assert(s[k] == t[k - n]);
            }
        }
    }
    if all_white(s) {
        assert(t.len() == 0);
        assert(trim_end(t) == t);
    }
}

/// Text that is not blank stays not blank with more text after it.
pub proof fn lemma_not_blank_extend(x: Seq<char>, y: Seq<char>)
    requires
        !is_blank(x),
    ensures
        !is_blank(x + y),
{
    lemma_blank_iff_all_white(x);
    lemma_blank_iff_all_white(x + y);
    let k = choose|k: int| 0 <= k < x.len() && !white_space(x[k]);
    assert((x + y)[k] == x[k]);
}

/// Text that begins with a character that is not white space is not blank.
pub proof fn lemma_not_blank_first(x: Seq<char>)
    requires
        x.len() > 0,
        !white_space(x[0]),
    ensures
        !is_blank(x),
{
    lemma_blank_iff_all_white(x);
}

pub proof fn lemma_line_end_unique(s: Seq<char>, i: int, e: int)
    requires
        0 <= i <= e <= s.len(),
        e == s.len() || s[e] == '\n',
        forall|k: int| i <= k < e ==> s[k] != '\n',
    ensures
        line_end(s, i) == e,
    decreases e - i,
{
    if i < e {
        lemma_line_end_unique(s, i + 1, e);
    }
}

/// `i` starts a line of `s`.
pub open spec fn line_start(s: Seq<char>, i: int) -> bool {
    0 <= i < s.len() && (i == 0 || s[i - 1] == '\n')
}

/// No line of `s`, read up to its line feed, is blank.
pub open spec fn no_blank_segment(s: Seq<char>) -> bool {
    forall|i: int| #[trigger] line_start(s, i) ==> !is_blank(s.subrange(i, line_end(s, i)))
}

/// Text that is empty or ends a line.
pub open spec fn ends_line(s: Seq<char>) -> bool {
    s.len() == 0 || s.last() == '\n'
}

/// Joining text that ends a line to more text keeps every line whole.
pub proof fn lemma_no_blank_concat(a: Seq<char>, b: Seq<char>)
    requires
        ends_line(a),
        no_blank_segment(a),
        no_blank_segment(b),
    ensures
        no_blank_segment(a + b),
        ends_line(b) ==> ends_line(a + b),
{
    let s = a + b;
    assert forall|i: int| #[trigger] line_start(s, i) implies !is_blank(
        s.subrange(i, line_end(s, i)),
    ) by {
        if i < a.len() {
            assert(line_start(a, i));
            lemma_line_end(a, i);
            let e = line_end(a, i);
            assert(e < a.len()) by {
                if e == a.len() {
                    assert(a[a.len() - 1] == '\n');
                }
            }
            lemma_line_end_unique(s, i, e);
            assert(s.subrange(i, e) == a.subrange(i, e));
        } else {
            let j = i - a.len();
            assert(line_start(b, j)) by {
                if j > 0 {
                    assert(b[j - 1] == s[i - 1]);
                }
            }
            lemma_line_end(b, j);
            let e = line_end(b, j);
            assert forall|k: int| i <= k < e + a.len() implies s[k] != '\n' by {
                assert(s[k] == b[k - a.len()]);
            }
            lemma_line_end_unique(s, i, e + a.len());
            assert(s.subrange(i, e + a.len()) == b.subrange(j, e));
        }
    }
    if ends_line(b) && b.len() > 0 {
        assert(s.last() == b.last());
    }
}

/// One line with its line feed.
pub proof fn lemma_no_blank_line(x: Seq<char>)
    requires
        !is_blank(x),
        forall|k: int| 0 <= k < x.len() ==> x[k] != '\n',
    ensures
        no_blank_segment(x + seq!['\n']),
        ends_line(x + seq!['\n']),
{
    let s = x + seq!['\n'];
    assert forall|i: int| #[trigger] line_start(s, i) implies !is_blank(
        s.subrange(i, line_end(s, i)),
    ) by {
        if i > 0 {
            assert(s[i - 1] == x[i - 1]);
        }
        assert(i == 0);
        assert forall|k: int| 0 <= k < x.len() implies s[k] != '\n' by {
            assert(s[k] == x[k]);
        }
        lemma_line_end_unique(s, 0, x.len() as int);
        assert(s.subrange(0, x.len() as int) == x);
    }
}

/// A line's text without its `'\r'` is blank only if the line is.
proof fn lemma_line_text_blank(s: Seq<char>, i: int, e: int)
    requires
        0 <= i <= e <= s.len(),
        !is_blank(s.subrange(i, e)),
    ensures
        !is_blank(line_text(s, i, e)),
{
    if e < s.len() && e > i && s[e - 1] == '\r' {
        let full = s.subrange(i, e);
        let cut = s.subrange(i, e - 1);
        lemma_blank_iff_all_white(full);
        lemma_blank_iff_all_white(cut);
        if all_white(cut) {
            assert forall|k: int| 0 <= k < full.len() implies white_space(#[trigger] full[k]) by {
                if k < cut.len() {
                    assert(full[k] == cut[k]);
                } else {
                    assert(full[k] == '\r');
                }
            }
        }
    }
}

proof fn lemma_lines_from_not_blank(s: Seq<char>, i: int)
    requires
        no_blank_segment(s),
        0 <= i,
        i < s.len() ==> line_start(s, i),
    ensures
        forall|k: int| 0 <= k < lines_from(s, i).len() ==> !is_blank(
            #[trigger] lines_from(s, i)[k],
        ),
    decreases s.len() + 1 - i,
{
    if i < s.len() {
        let e = line_end(s, i);
        lemma_line_end(s, i);
        lemma_line_text_blank(s, i, e);
        if e + 1 < s.len() {
            assert(line_start(s, e + 1));
        }
        lemma_lines_from_not_blank(s, e + 1);
        let rest = lines_from(s, e + 1);
        assert(lines_from(s, i) == seq![line_text(s, i, e)] + rest);
        assert forall|k: int| 0 <= k < lines_from(s, i).len() implies !is_blank(
            #[trigger] lines_from(s, i)[k],
        ) by {
            if k > 0 {
                assert(lines_from(s, i)[k] == rest[k - 1]);
            }
        }
    }
}

/// When no line is blank up to its line feed, no line that `str::lines`
/// gives is blank.
pub proof fn lemma_lines_not_blank(s: Seq<char>)
    requires
        no_blank_segment(s),
    ensures
        forall|k: int| 0 <= k < lines_of(s).len() ==> !is_blank(#[trigger] lines_of(s)[k]),
{
    lemma_lines_from_not_blank(s, 0);
}

/// Lines without line feeds, none blank, joined, with more text `w`
/// (without line feeds) and a line feed after the last.
pub proof fn lemma_no_blank_join(ms: Seq<Seq<char>>, w: Seq<char>)
    requires
        ms.len() > 0,
        forall|i: int| 0 <= i < ms.len() ==> !is_blank(#[trigger] ms[i]),
        forall|i: int, k: int| 0 <= i < ms.len() && 0 <= k < ms[i].len() ==> #[trigger] ms[i][k]
            != '\n',
        forall|k: int| 0 <= k < w.len() ==> w[k] != '\n',
    ensures
        no_blank_segment(join_lines(ms) + w + seq!['\n']),
        ends_line(join_lines(ms) + w + seq!['\n']),
    decreases ms.len(),
{
    let last = ms.last();
    assert(!is_blank(ms[ms.len() - 1]));
    lemma_not_blank_extend(last, w);
    assert forall|k: int| 0 <= k < (last + w).len() implies (last + w)[k] != '\n' by {
        if k < last.len() {
            assert((last + w)[k] == ms[ms.len() - 1][k]);
        } else {
            assert((last + w)[k] == w[k - last.len()]);
        }
    }
    lemma_no_blank_line(last + w);
    if ms.len() == 1 {
        assert(join_lines(ms) + w + seq!['\n'] == last + w + seq!['\n']);
    } else {
        let init = ms.drop_last();
        assert forall|i: int| 0 <= i < init.len() implies !is_blank(#[trigger] init[i]) by {
            assert(init[i] == ms[i]);
        }
        assert forall|i: int, k: int| 0 <= i < init.len() && 0 <= k < init[i].len() implies #[trigger] init[i][k]
            != '\n' by {
            assert(init[i] == ms[i]);
        }
        lemma_no_blank_join(init, Seq::empty());
        let head = join_lines(init) + Seq::<char>::empty() + seq!['\n'];
        lemma_no_blank_concat(head, last + w + seq!['\n']);
        assert(join_lines(ms) + w + seq!['\n'] == head + (last + w + seq!['\n']));
    }
}

} // verus!

verus! {

/// Trimming twice is trimming once.
pub proof fn lemma_trim_idempotent(s: Seq<char>)
    ensures
        trim(trim(s)) == trim(s),
{
    let t = trim_start(s);
    let u = trim_end(t);
    lemma_trim_start_shape(s);
    lemma_trim_end_shape(t);
    if u.len() > 0 {
        assert(u[0] == t[0]);
        assert(trim_start(u) == u);
        lemma_trim_end_shape(u);
        assert(trim_end(u) == u);
    } else {
        assert(trim_start(u) == u);
        assert(trim_end(u) == u);
    }
}

} // verus!

verus! {

/// A line that starts in `a` ends where it ends in `a`, unless it runs to the
/// end of `a`: then it goes on into `t`.
pub proof fn lemma_line_end_prefix(a: Seq<char>, t: Seq<char>, k: int)
    requires
        0 <= k <= a.len(),
    ensures
        line_end(a, k) < a.len() ==> line_end(a + t, k) == line_end(a, k),
        line_end(a, k) == a.len() ==> line_end(a + t, k) == a.len() + line_end(t, 0),
    decreases a.len() - k,
{
    if k < a.len() {
        assert((a + t)[k] == a[k]);
        if a[k] != '\n' {
            lemma_line_end_prefix(a, t, k + 1);
        }
    } else {
        lemma_line_end_suffix(a, t, 0);
    }
}

/// A line that starts in `t` ends, in `p + t`, where it ends in `t`, shifted.
pub proof fn lemma_line_end_suffix(p: Seq<char>, t: Seq<char>, k: int)
    requires
        0 <= k <= t.len(),
    ensures
        line_end(p + t, p.len() + k) == p.len() + line_end(t, k),
    decreases t.len() - k,
{
    if k < t.len() {
        assert((p + t)[p.len() + k] == t[k]);
        if t[k] != '\n' {
            lemma_line_end_suffix(p, t, k + 1);
        }
    }
}

/// Leading white space before text that is not all white space.
pub proof fn lemma_trim_start_concat(x: Seq<char>, y: Seq<char>)
    ensures
        all_white(x) ==> trim_start(x + y) == trim_start(y),
        !all_white(x) ==> trim_start(x + y) == trim_start(x) + y,
    decreases x.len(),
{
    if x.len() == 0 {
        assert(x + y == y);
    } else {
        assert((x + y)[0] == x[0]);
        if white_space(x[0]) {
            assert((x + y).drop_first() == x.drop_first() + y);
            lemma_trim_start_concat(x.drop_first(), y);
            if all_white(x.drop_first()) {
                assert forall|k: int| 0 <= k < x.len() implies white_space(#[trigger] x[k]) by {
                    if k > 0 {
                        assert(x[k] == x.drop_first()[k - 1]);
                    }
                }
            } else {
                assert(!all_white(x)) by {
                    let k = choose|k: int| 0 <= k < x.drop_first().len() && !white_space(x.drop_first()[k]);
                    assert(x[k + 1] == x.drop_first()[k]);
                }
            }
        } else {
            assert(!all_white(x));
        }
    }
}

/// A line feed before or after text does not change its trimmed form.
pub proof fn lemma_trim_line_feed(x: Seq<char>)
    ensures
        trim(seq!['\n'] + x) == trim(x),
        trim(x + seq!['\n']) == trim(x),
{
    assert((seq!['\n'] + x).drop_first() == x);
    assert(white_space('\n'));
    lemma_trim_start_concat(x, seq!['\n']);
    if all_white(x) {
        lemma_blank_iff_all_white(x);
        assert(seq!['\n'].drop_first().len() == 0);
        assert(trim_start(seq!['\n']) == trim_start(seq!['\n'].drop_first()));
    } else {
        let z = trim_start(x);
        assert((z + seq!['\n']).drop_last() == z);
    }
}

} // verus!
