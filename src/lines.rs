//! Splitting ASCII text into lines.
use vstd::prelude::*;

verus! {

/// The index of the first newline of `s` at or after `i`, or its length.
pub open spec fn next_newline(s: Seq<char>, i: int) -> int
    decreases s.len() - i,
{
    if i >= s.len() || s[i] == '\n' {
        i
    } else {
        next_newline(s, i + 1)
    }
}

/// The number of characters of `s` from `i` up to its next newline.
pub open spec fn line_len(s: Seq<char>, i: int) -> nat
    decreases s.len() - i,
{
    if i < 0 || i >= s.len() || s[i] == '\n' {
        0
    } else {
        1 + line_len(s, i + 1)
    }
}

/// The lines of `s` from index `i` on, as `BufRead::lines` yields them:
/// split at newlines, each without its newline or a carriage return before
/// it, and no empty line after a final newline.
pub open spec fn lines_from(s: Seq<char>, i: int) -> Seq<Seq<char>>
    decreases s.len() - i,
{
    if i < 0 || i >= s.len() {
        Seq::empty()
    } else {
        let e = i + line_len(s, i);
        let body_end = if e < s.len() && e > i && s[e - 1] == '\r' { e - 1 } else { e };
        let next = if e < s.len() { e + 1 } else { s.len() as int };
        seq![s.subrange(i, body_end)] + lines_from(s, next)
    }
}

/// The index after the chunk that `BufRead::read_line` reads from `p`: past
/// the next newline, or the end of `s`.
pub open spec fn chunk_end(s: Seq<char>, p: int) -> int {
    let e = p + line_len(s, p);
    if e < s.len() {
        e + 1
    } else {
        s.len() as int
    }
}

/// The number of newlines in `s` before index `at`.
pub open spec fn newlines_before(s: Seq<char>, at: int) -> nat
    decreases at,
{
    if at <= 0 || at > s.len() {
        0
    } else {
        newlines_before(s, at - 1) + if s[at - 1] == '\n' { 1nat } else { 0nat }
    }
}

/// The 1-based line of `s` that index `at` falls on, capped at `usize::MAX`.
pub open spec fn line_of_index(s: Seq<char>, at: int) -> int {
    let l: int = newlines_before(s, at) as int + 1;
    if l > usize::MAX { usize::MAX as int } else { l }
}

/// The 1-based line of `text` that index `at` falls on.
pub fn line_number(text: &str, at: usize) -> (r: usize)
    requires
        text.is_ascii(),
        at <= text@.len(),
    ensures
        r == line_of_index(text@, at as int),
{
    let mut count: usize = 0;
    let mut i: usize = 0;
    while i < at
        invariant
            i <= at,
            at <= text@.len(),
            text.is_ascii(),
            count == newlines_before(text@, i as int),
            count <= i,
        decreases at - i,
    {
        if text.get_ascii(i) == 10 {
            count = count + 1;
        }
        i = i + 1;
    }
    count.saturating_add(1)
}

/// The lines of `s`.
pub open spec fn text_lines(s: Seq<char>) -> Seq<Seq<char>> {
    lines_from(s, 0)
}

proof fn lemma_line_len(s: Seq<char>, i: int)
    requires
        0 <= i <= s.len(),
    ensures
        next_newline(s, i) == i + line_len(s, i),
    decreases s.len() - i,
{
    if i < s.len() && s[i] != '\n' {
        lemma_line_len(s, i + 1);
    }
}

proof fn lemma_next_newline(s: Seq<char>, i: int)
    requires
        0 <= i <= s.len(),
    ensures
        i <= next_newline(s, i) <= s.len(),
        next_newline(s, i) < s.len() ==> s[next_newline(s, i)] == '\n',
    decreases s.len() - i,
{
    if i < s.len() && s[i] != '\n' {
        lemma_next_newline(s, i + 1);
    }
}

/// The index of the first newline of `text` at or after `start`, or its length.
pub fn find_newline(text: &str, start: usize) -> (r: usize)
    requires
        text.is_ascii(),
        start <= text@.len(),
    ensures
        r == next_newline(text@, start as int),
        start <= r <= text@.len(),
        r < text@.len() ==> text@[r as int] == '\n',
{
    let n = crate::record_parsing::ascii_len(text);
    let mut i = start;
    proof {
        lemma_next_newline(text@, start as int);
    }
    while i < n && text.get_ascii(i) != 10
        invariant
            n == text@.len(),
            start <= i <= n,
            text.is_ascii(),
            next_newline(text@, i as int) == next_newline(text@, start as int),
        decreases n - i,
    {
        i = i + 1;
    }
    i
}

/// The line of `text` that starts at `start`, as `BufRead::lines` gives it:
/// without its newline, and without a carriage return before that newline.
/// Also the index where the next line starts.
pub fn line_at(text: &str, start: usize) -> (r: (&str, usize))
    requires
        text.is_ascii(),
        start < text@.len(),
    ensures
        ({
            let e = next_newline(text@, start as int);
            let body_end = if e < text@.len() && e > start && text@[e - 1] == '\r' { e - 1 } else { e };
            &&& r.0@ == text@.subrange(start as int, body_end)
            &&& r.0.is_ascii()
            &&& r.1 == if e < text@.len() { e + 1 } else { e }
            &&& start < r.1 <= text@.len()
            &&& lines_from(text@, start as int) == seq![r.0@] + lines_from(text@, r.1 as int)
        }),
{
    proof {
        lemma_line_len(text@, start as int);
    }
    let e = find_newline(text, start);
    let n = crate::record_parsing::ascii_len(text);
    let body_end = if e < n && e > start && text.get_ascii(e - 1) == 13 { e - 1 } else { e };
    let next = if e < n { e + 1 } else { e };
    (text.substring_ascii(start, body_end), next)
}

/// The chunk of `text` that `BufRead::read_line` reads from `start`: up to
/// and with the next newline, or to the end. Also the index after it.
pub fn chunk_at(text: &str, start: usize) -> (r: (&str, usize))
    requires
        text.is_ascii(),
        start <= text@.len(),
    ensures
        ({
            let e = next_newline(text@, start as int);
            let end = if e < text@.len() { e + 1 } else { e };
            &&& r.0@ == text@.subrange(start as int, end)
            &&& r.0.is_ascii()
            &&& r.1 == end
            &&& start <= r.1 <= text@.len()
            &&& (r.1 == start <==> start == text@.len())
            &&& r.1 == chunk_end(text@, start as int)
        }),
{
    proof {
        lemma_line_len(text@, start as int);
    }
    let e = find_newline(text, start);
    let n = crate::record_parsing::ascii_len(text);
    let end = if e < n { e + 1 } else { e };
    (text.substring_ascii(start, end), end)
}

} // verus!
