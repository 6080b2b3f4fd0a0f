//! Texts as sequences of characters: where a pattern first occurs, where a
//! line ends, and what is left of a line once the whitespace around it is
//! gone.

use vstd::prelude::*;
use vstd::string::*;

verus! {

/// Whether `c` has the Unicode property `White_Space`.
pub open spec fn is_whitespace(c: char) -> bool {
    let n = c as u32;
    ||| 0x09 <= n <= 0x0D
    ||| n == 0x20
    ||| n == 0x85
    ||| n == 0xA0
    ||| n == 0x1680
    ||| 0x2000 <= n <= 0x200A
    ||| n == 0x2028
    ||| n == 0x2029
    ||| n == 0x202F
    ||| n == 0x205F
    ||| n == 0x3000
}

/// `s` without its leading whitespace.
pub open spec fn trim_start(s: Seq<char>) -> Seq<char>
    decreases s.len(),
{
    if s.len() > 0 && is_whitespace(s.first()) {
        trim_start(s.drop_first())
    } else {
        s
    }
}

/// `s` without its trailing whitespace.
pub open spec fn trim_end(s: Seq<char>) -> Seq<char>
    decreases s.len(),
{
    if s.len() > 0 && is_whitespace(s.last()) {
        trim_end(s.drop_last())
    } else {
        s
    }
}

/// `s` without the whitespace on either side of it.
pub open spec fn trim(s: Seq<char>) -> Seq<char> {
    trim_end(trim_start(s))
}

/// Whether `pattern` stands in `text` at index `at`.
pub open spec fn occurs_at(text: Seq<char>, pattern: Seq<char>, at: int) -> bool {
    &&& 0 <= at
    &&& at + pattern.len() <= text.len()
    &&& text.subrange(at, at + pattern.len()) == pattern
}

/// Whether `pattern` stands anywhere in `text`.
pub open spec fn contains_pattern(text: Seq<char>, pattern: Seq<char>) -> bool {
    exists|at: int| occurs_at(text, pattern, at)
}

/// Whether `at` is the least index at which `pattern` stands in `text`.
pub open spec fn is_first_occurrence(text: Seq<char>, pattern: Seq<char>, at: int) -> bool {
    &&& occurs_at(text, pattern, at)
    &&& forall|j: int| 0 <= j < at ==> !occurs_at(text, pattern, j)
}

/// The least index at which `pattern` stands in `text`, where it stands
/// anywhere.
pub open spec fn first_occurrence(text: Seq<char>, pattern: Seq<char>) -> int {
    choose|at: int| is_first_occurrence(text, pattern, at)
}

/// The index of the first line feed of `text` at or after `from`, or the
/// length of `text` where none follows.
pub open spec fn line_end(text: Seq<char>, from: int) -> int
    decreases text.len() - from,
{
    if from < 0 || from >= text.len() {
        text.len() as int
    } else if text[from] == '\n' {
        from
    } else {
        line_end(text, from + 1)
    }
}

/// The index of the first `c` in `s`, or the length of `s` where it holds
/// none.
pub open spec fn first_index_of(s: Seq<char>, c: char) -> int
    decreases s.len(),
{
    if s.len() == 0 {
        0
    } else if s.first() == c {
        0
    } else {
        1 + first_index_of(s.drop_first(), c)
    }
}

/// An index with nothing but whitespace before it and none at it is where
/// `trim_start` cuts.
pub proof fn lemma_trim_start_at(s: Seq<char>, cut: int)
    requires
        0 <= cut <= s.len(),
        forall|i: int| 0 <= i < cut ==> is_whitespace(s[i]),
        cut < s.len() ==> !is_whitespace(s[cut]),
    ensures
        trim_start(s) == s.subrange(cut, s.len() as int),
    decreases cut,
{
    if cut > 0 {
        lemma_trim_start_at(s.drop_first(), cut - 1);
    }
}

/// An index with nothing but whitespace from it on and none just before it
/// is where `trim_end` cuts.
pub proof fn lemma_trim_end_at(s: Seq<char>, cut: int)
    requires
        0 <= cut <= s.len(),
        forall|i: int| cut <= i < s.len() ==> is_whitespace(s[i]),
        0 < cut ==> !is_whitespace(s[cut - 1]),
    ensures
        trim_end(s) == s.subrange(0, cut),
    decreases s.len() - cut,
{
    if cut < s.len() {
        lemma_trim_end_at(s.drop_last(), cut);
    }
}

/// A pattern that stands at `at` and nowhere before it first occurs at
/// `at`.
pub proof fn lemma_first_occurrence_at(text: Seq<char>, pattern: Seq<char>, at: int)
    requires
        is_first_occurrence(text, pattern, at),
    ensures
        contains_pattern(text, pattern),
        first_occurrence(text, pattern) == at,
{
}

/// A pattern that stands somewhere in a text has a first occurrence.
pub proof fn lemma_first_occurrence_exists(text: Seq<char>, pattern: Seq<char>)
    requires
        contains_pattern(text, pattern),
    ensures
        is_first_occurrence(text, pattern, first_occurrence(text, pattern)),
{
    let some = choose|at: int| occurs_at(text, pattern, at);
    lemma_least_occurrence(text, pattern, some, 0);
}

proof fn lemma_least_occurrence(text: Seq<char>, pattern: Seq<char>, known: int, from: int)
    requires
        occurs_at(text, pattern, known),
        0 <= from <= known,
        forall|j: int| 0 <= j < from ==> !occurs_at(text, pattern, j),
    ensures
        exists|at: int| is_first_occurrence(text, pattern, at),
    decreases known - from,
{
    if occurs_at(text, pattern, from) {
        assert(is_first_occurrence(text, pattern, from));
    } else {
        lemma_least_occurrence(text, pattern, known, from + 1);
    }
}

/// An index at or after `from` with no line feed between the two, and with
/// a line feed at it unless it is the end of the text, is where the line ends.
pub proof fn lemma_line_end_at(text: Seq<char>, from: int, end: int)
    requires
        0 <= from <= end <= text.len(),
        forall|i: int| from <= i < end ==> text[i] != '\n',
        end < text.len() ==> text[end] == '\n',
    ensures
        line_end(text, from) == end,
    decreases end - from,
{
    if from < end {
        lemma_line_end_at(text, from + 1, end);
    }
}

/// The line that starts at `from` ends at or after `from`, within the text,
/// at a line feed or at the end of the text, with no line feed before it.
pub proof fn lemma_line_end_bounds(text: Seq<char>, from: int)
    requires
        0 <= from <= text.len(),
    ensures
        from <= line_end(text, from) <= text.len(),
        forall|i: int| from <= i < line_end(text, from) ==> text[i] != '\n',
        line_end(text, from) < text.len() ==> text[line_end(text, from)] == '\n',
    decreases text.len() - from,
{
    if from < text.len() && text[from] != '\n' {
        lemma_line_end_bounds(text, from + 1);
    }
}

/// An index with no `c` before it, and with `c` at it unless it is the
/// length of `s`, is the first index of `c`.
pub proof fn lemma_first_index_at(s: Seq<char>, c: char, at: int)
    requires
        0 <= at <= s.len(),
        forall|i: int| 0 <= i < at ==> s[i] != c,
        at < s.len() ==> s[at] == c,
    ensures
        first_index_of(s, c) == at,
    decreases at,
{
    if at > 0 {
        lemma_first_index_at(s.drop_first(), c, at - 1);
    }
}

/// Whether `c` is whitespace.
pub fn char_is_whitespace(c: char) -> (r: bool)
    ensures
        r == is_whitespace(c),
{
    let n: u32 = c as u32;
    (0x09 <= n && n <= 0x0D) || n == 0x20 || n == 0x85 || n == 0xA0 || n == 0x1680 || (0x2000 <= n
        && n <= 0x200A) || n == 0x2028 || n == 0x2029 || n == 0x202F || n == 0x205F || n
        == 0x3000
}

/// The characters of `s`, one element each.
pub fn chars_of(s: &str) -> (r: Vec<char>)
    ensures
        r@ == s@,
{
    let mut out: Vec<char> = Vec::new();
    for c in it: s.chars()
        invariant
            out@ == it.seq().subrange(0, it.index()),
    {
        out.push(c);
    }
    out
}

/// Whether `pattern` stands in `text` at index `at`.
fn matches_at(text: &Vec<char>, pattern: &Vec<char>, at: usize) -> (r: bool)
    requires
        at + pattern@.len() <= text@.len(),
    ensures
        r == occurs_at(text@, pattern@, at as int),
{
    let n: usize = text.len();
    let m: usize = pattern.len();
    let mut k: usize = 0;
    while k < m
        invariant
            n == text@.len(),
            m == pattern@.len(),
            at + m <= n,
            k <= m,
            forall|i: int| 0 <= i < k ==> text@[at + i] == pattern@[i],
        decreases m - k,
    {
        if text[at + k] != pattern[k] {
            return false;
        }
        k += 1;
    }
    assert(text@.subrange(at as int, at + m) =~= pattern@);
    true
}

/// The least index at which `pattern` stands in `text`, if it stands
/// anywhere.
pub fn find_pattern(text: &Vec<char>, pattern: &Vec<char>) -> (r: Option<usize>)
    ensures
        match r {
            Some(at) => is_first_occurrence(text@, pattern@, at as int),
            None => !contains_pattern(text@, pattern@),
        },
{
    let n: usize = text.len();
    let m: usize = pattern.len();
    if m > n {
        return None;
    }
    let last: usize = n - m;
    let mut i: usize = 0;
    loop
        invariant
            n == text@.len(),
            m == pattern@.len(),
            last == n - m,
            i <= last,
            forall|j: int| 0 <= j < i ==> !occurs_at(text@, pattern@, j),
        decreases last - i,
    {
        if matches_at(text, pattern, i) {
            return Some(i);
        }
        if i == last {
            return None;
        }
        i += 1;
    }
}

/// The index of the first line feed of `text` at or after `from`, or the
/// length of `text` where none follows.
pub fn find_line_end(text: &Vec<char>, from: usize) -> (r: usize)
    requires
        from <= text@.len(),
    ensures
        r == line_end(text@, from as int),
        from <= r <= text@.len(),
{
    let n: usize = text.len();
    let mut i: usize = from;
    while i < n && text[i] != '\n'
        invariant
            n == text@.len(),
            from <= i <= n,
            forall|j: int| from <= j < i ==> text@[j] != '\n',
        decreases n - i,
    {
        i += 1;
    }
    proof {
        lemma_line_end_at(text@, from as int, i as int);
    }
    i
}

/// The index of the first `c` among the characters of `text` from `from`
/// up to `to`, or `to` where there is none.
pub fn find_char_between(text: &Vec<char>, c: char, from: usize, to: usize) -> (r: usize)
    requires
        from <= to <= text@.len(),
    ensures
        r == from + first_index_of(text@.subrange(from as int, to as int), c),
        from <= r <= to,
        r < to <==> text@.subrange(from as int, to as int).contains(c),
{
    let ghost part = text@.subrange(from as int, to as int);
    let mut i: usize = from;
    while i < to && text[i] != c
        invariant
            from <= i <= to <= text@.len(),
            part == text@.subrange(from as int, to as int),
            forall|j: int| 0 <= j < i - from ==> part[j] != c,
        decreases to - i,
    {
        i += 1;
    }
    proof {
        lemma_first_index_at(part, c, i - from);
    }
    i
}

/// The index of the first `c` in `text`, or the length of `text` where it
/// holds none.
pub fn find_char(text: &Vec<char>, c: char) -> (r: usize)
    ensures
        r == first_index_of(text@, c),
        r <= text@.len(),
        r < text@.len() <==> text@.contains(c),
{
    assert(text@.subrange(0, text@.len() as int) =~= text@);
    find_char_between(text, c, 0, text.len())
}

/// The bounds of what `trim` leaves of the characters of `text` from `from`
/// up to `to`.
pub fn trim_bounds(text: &Vec<char>, from: usize, to: usize) -> (r: (usize, usize))
    requires
        from <= to <= text@.len(),
    ensures
        from <= r.0 <= r.1 <= to,
        text@.subrange(r.0 as int, r.1 as int) == trim(text@.subrange(from as int, to as int)),
{
    let ghost line = text@.subrange(from as int, to as int);
    let mut a: usize = from;
    while a < to && char_is_whitespace(text[a])
        invariant
            from <= a <= to <= text@.len(),
            forall|j: int| from <= j < a ==> is_whitespace(text@[j]),
        decreases to - a,
    {
        a += 1;
    }
    let mut b: usize = to;
    while a < b && char_is_whitespace(text[b - 1])
        invariant
            a <= b <= to <= text@.len(),
            forall|j: int| b <= j < to ==> is_whitespace(text@[j]),
        decreases b - a,
    {
        b -= 1;
    }
    proof {
        lemma_trim_start_at(line, a - from);
        lemma_trim_end_at(line.subrange(a - from, line.len() as int), b - a);
    }
    (a, b)
}

/// `text` with the characters from `start` up to `end` replaced by
/// `replacement`.
pub fn splice(text: &str, start: usize, end: usize, replacement: &str) -> (r: String)
    requires
        start <= end <= text@.len(),
    ensures
        r@ == text@.subrange(0, start as int) + replacement@ + text@.subrange(
            end as int,
            text@.len() as int,
        ),
{
    let n: usize = text.unicode_len();
    let head = text.substring_char(0, start);
    let tail = text.substring_char(end, n);
    String::from_str(head).concat(replacement).concat(tail)
}

} // verus!
