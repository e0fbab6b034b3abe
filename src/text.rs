//! Character-level scanning: separators, lines, White_Space, digits.

use vstd::prelude::*;

verus! {

/// The characters with Unicode's `White_Space` property, which std's
/// `char::is_whitespace`, `str::trim` and `str::split_whitespace` go by.
pub open spec fn is_white_space(c: char) -> bool {
    let u = c as u32;
    ||| 0x09 <= u <= 0x0d
    ||| u == 0x20
    ||| u == 0x85
    ||| u == 0xa0
    ||| u == 0x1680
    ||| 0x2000 <= u <= 0x200a
    ||| u == 0x2028
    ||| u == 0x2029
    ||| u == 0x202f
    ||| u == 0x205f
    ||| u == 0x3000
}

pub fn white_space(c: char) -> (r: bool)
    ensures
        r == is_white_space(c),
{
    let u = c as u32;
    (0x09 <= u && u <= 0x0d) || u == 0x20 || u == 0x85 || u == 0xa0 || u == 0x1680 || (0x2000
        <= u && u <= 0x200a) || u == 0x2028 || u == 0x2029 || u == 0x202f || u == 0x205f || u
        == 0x3000
}

/// The characters of a text, in order.
pub fn chars_of(s: &str) -> (r: Vec<char>)
    ensures
        r@ == s@,
{
    let mut r: Vec<char> = Vec::new();
    for c in it: s.chars()
        invariant
            it.seq() == s@,
            r@.len() == it.index(),
            forall|k: int| 0 <= k < r@.len() ==> r@[k] == s@[k],
    {
        r.push(c);
    }
    assert(r@ =~= s@);
    r
}

pub fn copy_range(v: &Vec<char>, lo: usize, hi: usize) -> (r: Vec<char>)
    requires
        lo <= hi <= v.len(),
    ensures
        r@ == v@.subrange(lo as int, hi as int),
{
    let mut r: Vec<char> = Vec::new();
    let mut i = lo;
    while i < hi
        invariant
            lo <= i <= hi <= v.len(),
            r@ == v@.subrange(lo as int, i as int),
        decreases hi - i,
    {
        r.push(v[i]);
        proof {
            assert(r@ =~= v@.subrange(lo as int, i + 1));
        }
        i = i + 1;
    }
    r
}

/// `pat` stands in `s` at index `i`.
pub open spec fn occurs_at(s: Seq<char>, pat: Seq<char>, i: int) -> bool {
    0 <= i && i + pat.len() <= s.len() && s.subrange(i, i + pat.len()) == pat
}

/// The first index at or after `i` where `pat` stands in `s`.
pub open spec fn find_from(s: Seq<char>, pat: Seq<char>, i: int) -> Option<int>
    decreases s.len() + 1 - i,
{
    if i < 0 || i + pat.len() > s.len() {
        None
    } else if occurs_at(s, pat, i) {
        Some(i)
    } else {
        find_from(s, pat, i + 1)
    }
}

/// The pieces of `s` from index `i` on, between the occurrences of `sep`,
/// as std's `str::split` gives them: the last piece runs to the end.
pub open spec fn split_from(s: Seq<char>, sep: Seq<char>, i: int) -> Seq<Seq<char>>
    decreases s.len() + 1 - i,
{
    if sep.len() == 0 || i < 0 || i > s.len() {
        Seq::empty()
    } else {
        match find_from(s, sep, i) {
            Some(j) => {
                if i <= j && j + sep.len() <= s.len() {
                    seq![s.subrange(i, j)] + split_from(s, sep, j + sep.len())
                } else {
                    Seq::empty()
                }
            },
            None => seq![s.subrange(i, s.len() as int)],
        }
    }
}

pub proof fn lemma_find_from_bounds(s: Seq<char>, pat: Seq<char>, i: int)
    ensures
        find_from(s, pat, i) matches Some(j) ==> i <= j && occurs_at(s, pat, j),
    decreases s.len() + 1 - i,
{
    if !(i < 0 || i + pat.len() > s.len()) && !occurs_at(s, pat, i) {
        lemma_find_from_bounds(s, pat, i + 1);
    }
}

/// `pat` stands in `v` at index `j`.
pub fn matches_at(v: &Vec<char>, pat: &Vec<char>, j: usize) -> (r: bool)
    ensures
        r == occurs_at(v@, pat@, j as int),
{
    if pat.len() > v.len() || j > v.len() - pat.len() {
        return false;
    }
    let mut k: usize = 0;
    while k < pat.len()
        invariant
            j + pat.len() <= v.len(),
            k <= pat.len(),
            forall|m: int| 0 <= m < k ==> v@[j + m] == pat@[m],
        decreases pat.len() - k,
    {
        if v[j + k] != pat[k] {
            assert(v@.subrange(j as int, j + pat.len())[k as int] != pat@[k as int]);
            return false;
        }
        k = k + 1;
    }
    assert(v@.subrange(j as int, j + pat.len()) =~= pat@);
    true
}

/// The first index at or after `i` where `pat` stands in `v`.
pub fn find(v: &Vec<char>, pat: &Vec<char>, i: usize) -> (r: Option<usize>)
    requires
        i <= v.len(),
    ensures
        r == (match find_from(v@, pat@, i as int) {
            Some(j) => Some(j as usize),
            None => None,
        }),
{
    if pat.len() > v.len() {
        return None;
    }
    if pat.len() == 0 {
        assert(v@.subrange(i as int, i as int) =~= pat@);
        return Some(i);
    }
    let last = v.len() - pat.len();
    let mut j = i;
    while j <= last
        invariant
            i <= j <= v.len(),
            last + pat.len() == v.len(),
            pat.len() > 0,
            find_from(v@, pat@, i as int) == find_from(v@, pat@, j as int),
        decreases v.len() - j,
    {
        if matches_at(v, pat, j) {
            return Some(j);
        }
        j = j + 1;
    }
    None
}

/// `s` with White_Space taken off both ends, as std's `str::trim` gives it.
pub open spec fn trim(s: Seq<char>) -> Seq<char> {
    let a = skip_white_space(s, 0);
    s.subrange(a, back_over_white_space(s, a, s.len() as int))
}

/// The first index at or after `i` that holds no White_Space, or the length.
pub open spec fn skip_white_space(s: Seq<char>, i: int) -> int
    decreases s.len() - i,
{
    if i < 0 || i >= s.len() {
        i
    } else if is_white_space(s[i]) {
        skip_white_space(s, i + 1)
    } else {
        i
    }
}

/// The end of `s.subrange(lo, j)` once the White_Space at its end is left off.
pub open spec fn back_over_white_space(s: Seq<char>, lo: int, j: int) -> int
    decreases j - lo,
{
    if j <= lo || j > s.len() {
        j
    } else if is_white_space(s[j - 1]) {
        back_over_white_space(s, lo, j - 1)
    } else {
        j
    }
}

pub proof fn lemma_skip_white_space_bounds(s: Seq<char>, i: int)
    requires
        0 <= i <= s.len(),
    ensures
        i <= skip_white_space(s, i) <= s.len(),
    decreases s.len() - i,
{
    if i < s.len() && is_white_space(s[i]) {
        lemma_skip_white_space_bounds(s, i + 1);
    }
}

pub fn trim_chars(v: &Vec<char>) -> (r: Vec<char>)
    ensures
        r@ == trim(v@),
{
    let mut a: usize = 0;
    while a < v.len() && white_space(v[a])
        invariant
            a <= v.len(),
            skip_white_space(v@, 0) == skip_white_space(v@, a as int),
        decreases v.len() - a,
    {
        a = a + 1;
    }
    let mut b: usize = v.len();
    while b > a && white_space(v[b - 1])
        invariant
            a <= b <= v.len(),
            back_over_white_space(v@, a as int, v.len() as int) == back_over_white_space(
                v@,
                a as int,
                b as int,
            ),
        decreases b - a,
    {
        b = b - 1;
    }
    copy_range(v, a, b)
}

/// The index of the first line feed at or after `i`, or the length.
pub open spec fn line_end(s: Seq<char>, i: int) -> int
    decreases s.len() - i,
{
    if i < 0 || i >= s.len() {
        s.len() as int
    } else if s[i] == '\n' {
        i
    } else {
        line_end(s, i + 1)
    }
}

/// The line that starts at index `i`, without its ending: a line feed, and a
/// carriage return right before it.
pub open spec fn line_at(s: Seq<char>, i: int) -> Seq<char> {
    let e = line_end(s, i);
    if i < e < s.len() && s[e - 1] == '\r' {
        s.subrange(i, e - 1)
    } else {
        s.subrange(i, e)
    }
}

/// The lines of `s` from index `i` on, as std's `str::lines` gives them.
pub open spec fn lines_from(s: Seq<char>, i: int) -> Seq<Seq<char>>
    decreases s.len() + 1 - i,
{
    if i < 0 || i >= s.len() {
        Seq::empty()
    } else {
        let e = line_end(s, i);
        if i <= e <= s.len() {
            seq![line_at(s, i)] + lines_from(s, e + 1)
        } else {
            Seq::empty()
        }
    }
}

pub proof fn lemma_line_end_bounds(s: Seq<char>, i: int)
    requires
        0 <= i <= s.len(),
    ensures
        i <= line_end(s, i) <= s.len(),
    decreases s.len() - i,
{
    if i < s.len() && s[i] != '\n' {
        lemma_line_end_bounds(s, i + 1);
    }
}

/// The index of the first line feed at or after `i`, or the length.
pub fn find_line_end(v: &Vec<char>, i: usize) -> (r: usize)
    requires
        i <= v.len(),
    ensures
        r == line_end(v@, i as int),
        i <= r <= v.len(),
{
    let mut j = i;
    while j < v.len() && v[j] != '\n'
        invariant
            i <= j <= v.len(),
            line_end(v@, i as int) == line_end(v@, j as int),
        decreases v.len() - j,
    {
        j = j + 1;
    }
    j
}

/// The end of the content of the line that starts at `i` and ends at `e`.
pub fn line_content_end(v: &Vec<char>, i: usize, e: usize) -> (r: usize)
    requires
        i <= v.len(),
        e == line_end(v@, i as int),
    ensures
        v@.subrange(i as int, r as int) == line_at(v@, i as int),
        i <= r <= e,
{
    proof {
        lemma_line_end_bounds(v@, i as int);
    }
    if i < e && e < v.len() && v[e - 1] == '\r' {
        e - 1
    } else {
        e
    }
}

pub open spec fn is_digit(c: char) -> bool {
    '0' <= c <= '9'
}

/// The index of the first character at or after `i` that is not an ASCII
/// digit, or the length.
pub open spec fn digits_end(s: Seq<char>, i: int) -> int
    decreases s.len() - i,
{
    if i < 0 || i >= s.len() {
        i
    } else if is_digit(s[i]) {
        digits_end(s, i + 1)
    } else {
        i
    }
}

/// The number that the ASCII digits of `s.subrange(p, q)` write in decimal.
pub open spec fn digits_value(s: Seq<char>, p: int, q: int) -> int
    decreases q - p,
{
    if q <= p {
        0
    } else {
        digits_value(s, p, q - 1) * 10 + (s[q - 1] as u32 - '0' as u32)
    }
}

pub proof fn lemma_digits_end_bounds(s: Seq<char>, i: int)
    requires
        0 <= i <= s.len(),
    ensures
        i <= digits_end(s, i) <= s.len(),
        forall|k: int| i <= k < digits_end(s, i) ==> is_digit(#[trigger] s[k]),
        digits_end(s, i) < s.len() ==> !is_digit(s[digits_end(s, i)]),
    decreases s.len() - i,
{
    if i < s.len() && is_digit(s[i]) {
        lemma_digits_end_bounds(s, i + 1);
    }
}

pub fn find_digits_end(v: &Vec<char>, i: usize) -> (r: usize)
    requires
        i <= v.len(),
    ensures
        r == digits_end(v@, i as int),
{
    let mut j = i;
    while j < v.len() && '0' <= v[j] && v[j] <= '9'
        invariant
            i <= j <= v.len(),
            digits_end(v@, i as int) == digits_end(v@, j as int),
        decreases v.len() - j,
    {
        j = j + 1;
    }
    j
}

/// The number that the ASCII digits of `v@.subrange(p, q)` write, if it fits
/// in a `u32`.
pub fn digits_to_u32(v: &Vec<char>, p: usize, q: usize) -> (r: Option<u32>)
    requires
        p <= q <= v.len(),
        forall|k: int| p <= k < q ==> is_digit(#[trigger] v@[k]),
    ensures
        r == (if digits_value(v@, p as int, q as int) <= u32::MAX {
            Some(digits_value(v@, p as int, q as int) as u32)
        } else {
            None
        }),
{
    let mut acc: u64 = 0;
    let mut k = p;
    while k < q
        invariant
            p <= k <= q <= v.len(),
            forall|m: int| p <= m < q ==> is_digit(#[trigger] v@[m]),
            digits_value(v@, p as int, k as int) >= 0,
            digits_value(v@, p as int, k as int) <= u32::MAX ==> acc == digits_value(
                v@,
                p as int,
                k as int,
            ),
            digits_value(v@, p as int, k as int) > u32::MAX ==> acc > u32::MAX,
            acc <= u32::MAX * 10 + 9,
        decreases q - k,
    {
        assert(is_digit(v@[k as int]));
        let d = (v[k] as u32 - '0' as u32) as u64;
        if acc <= u32::MAX as u64 {
            acc = acc * 10 + d;
        }
        k = k + 1;
    }
    if acc <= u32::MAX as u64 {
        Some(acc as u32)
    } else {
        None
    }
}

/// The index of the first White_Space at or after `i`, or the length.
pub open spec fn word_end(s: Seq<char>, i: int) -> int
    decreases s.len() - i,
{
    if i < 0 || i >= s.len() {
        i
    } else if is_white_space(s[i]) {
        i
    } else {
        word_end(s, i + 1)
    }
}

pub proof fn lemma_word_end_bounds(s: Seq<char>, i: int)
    requires
        0 <= i <= s.len(),
    ensures
        i <= word_end(s, i) <= s.len(),
    decreases s.len() - i,
{
    if i < s.len() && !is_white_space(s[i]) {
        lemma_word_end_bounds(s, i + 1);
    }
}

pub fn skip_spaces(v: &Vec<char>, i: usize) -> (r: usize)
    requires
        i <= v.len(),
    ensures
        r == skip_white_space(v@, i as int),
        i <= r <= v.len(),
{
    proof {
        lemma_skip_white_space_bounds(v@, i as int);
    }
    let mut j = i;
    while j < v.len() && white_space(v[j])
        invariant
            i <= j <= v.len(),
            skip_white_space(v@, i as int) == skip_white_space(v@, j as int),
        decreases v.len() - j,
    {
        j = j + 1;
    }
    j
}

pub fn find_word_end(v: &Vec<char>, i: usize) -> (r: usize)
    requires
        i <= v.len(),
    ensures
        r == word_end(v@, i as int),
        i <= r <= v.len(),
{
    proof {
        lemma_word_end_bounds(v@, i as int);
    }
    let mut j = i;
    while j < v.len() && !white_space(v[j])
        invariant
            i <= j <= v.len(),
            word_end(v@, i as int) == word_end(v@, j as int),
        decreases v.len() - j,
    {
        j = j + 1;
    }
    j
}

/// What std's `u32::from_str` reads from `f`: an optional `+`, then one or
/// more ASCII digits whose number fits in a `u32`.
pub open spec fn parse_u32(f: Seq<char>) -> Option<u32> {
    let start: int = if f.len() > 0 && f[0] == '+' {
        1
    } else {
        0
    };
    if start >= f.len() || digits_end(f, start) != f.len() {
        None
    } else if digits_value(f, start, f.len() as int) <= u32::MAX {
        Some(digits_value(f, start, f.len() as int) as u32)
    } else {
        None
    }
}

pub fn parse_u32_chars(f: &Vec<char>) -> (r: Option<u32>)
    ensures
        r == parse_u32(f@),
{
    let start: usize = if f.len() > 0 && f[0] == '+' {
        1
    } else {
        0
    };
    if start >= f.len() {
        return None;
    }
    let q = find_digits_end(f, start);
    if q != f.len() {
        return None;
    }
    proof {
        lemma_digits_end_bounds(f@, start as int);
    }
    digits_to_u32(f, start, q)
}

/// Relies on std's `String::push`: the character goes on the end.
#[verifier::external_body]
pub(crate) fn push_char(s: &mut String, c: char)
    ensures
        final(s)@ == old(s)@.push(c),
{
    s.push(c)
}

/// A `String` that holds the characters `v@.subrange(lo, hi)`.
pub fn string_of(v: &Vec<char>, lo: usize, hi: usize) -> (r: String)
    requires
        lo <= hi <= v.len(),
    ensures
        r@ == v@.subrange(lo as int, hi as int),
{
    let mut r = String::new();
    let mut i = lo;
    while i < hi
        invariant
            lo <= i <= hi <= v.len(),
            r@ == v@.subrange(lo as int, i as int),
        decreases hi - i,
    {
        push_char(&mut r, v[i]);
        proof {
            assert(r@ =~= v@.subrange(lo as int, i + 1));
        }
        i = i + 1;
    }
    r
}

} // verus!
