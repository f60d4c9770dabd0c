//! Fixed links between stations (walks, tube, bus and the like), and the
//! reader of the fixed-link feed.
use vstd::prelude::*;
use crate::stations::{StationId, StationList, Station, first_crs};
use crate::record_parsing::{lemma_digits_number_nonneg, digits_number, ascii_len, RailError, ErrorKind, ErrorReason, digits_value, parse_u32, decimal_value};
use crate::lines::{line_at, lines_from, text_lines};
use crate::timetable::is_digit;

verus! {

/// How a fixed link is travelled.
#[derive(Debug, PartialEq, Eq, Structural, Clone, Copy)]
pub enum FixedLinkKind {
    Walk,
    Tube,
    Metro,
    Bus,
    Ferry,
    Transfer,
}

/// An undirected link between stations `a` and `b` taking `time` seconds.
#[derive(Debug, PartialEq, Eq, Structural, Clone, Copy)]
pub struct FixedLink {
    pub a: StationId,
    pub b: StationId,
    pub time: u32,
    pub kind: FixedLinkKind,
}

/// The word that names a kind of fixed link in the feed.
pub open spec fn kind_word(k: FixedLinkKind) -> Seq<char> {
    match k {
        FixedLinkKind::Walk => seq!['W', 'A', 'L', 'K'],
        FixedLinkKind::Tube => seq!['T', 'U', 'B', 'E'],
        FixedLinkKind::Metro => seq!['M', 'E', 'T', 'R', 'O'],
        FixedLinkKind::Bus => seq!['B', 'U', 'S'],
        FixedLinkKind::Ferry => seq!['F', 'E', 'R', 'R', 'Y'],
        FixedLinkKind::Transfer => seq!['T', 'R', 'A', 'N', 'S', 'F', 'E', 'R'],
    }
}

/// `n` spaces.
pub open spec fn spaces(n: nat) -> Seq<char> {
    Seq::new(n, |i: int| ' ')
}

/// Whether `s` is three capital letters.
pub open spec fn is_code(s: Seq<char>) -> bool {
    s.len() == 3 && forall|i: int| 0 <= i < 3 ==> 'A' <= #[trigger] s[i] && s[i] <= 'Z'
}

/// Whether `line` reads `ADDITIONAL LINK: <KIND> BETWEEN <A> AND <B> IN`,
/// then `gap` spaces (at least one), the digits `mins`, ` MINUTES` and `tail`
/// spaces; `A` and `B` are three capital letters each.
pub open spec fn link_parts(line: Seq<char>, k: FixedLinkKind, a: Seq<char>, b: Seq<char>, gap: nat, mins: Seq<char>, tail: nat) -> bool {
    &&& gap >= 1
    &&& is_code(a)
    &&& is_code(b)
    &&& mins.len() >= 1
    &&& forall|i: int| 0 <= i < mins.len() ==> is_digit(#[trigger] mins[i])
    &&& line == link_line_text(k, a, b, gap, mins, tail)
}

/// Whether `line` is a fixed-link line of kind `k` between the CRS codes `a`
/// and `b`, taking `mins` minutes.
pub open spec fn is_link_line(line: Seq<char>, k: FixedLinkKind, a: Seq<char>, b: Seq<char>, mins: Seq<char>) -> bool {
    exists|gap: nat, tail: nat| link_parts(line, k, a, b, gap, mins, tail)
}

/// The parts of a fixed-link line, or `None` for any other line.
pub open spec fn link_of_line(line: Seq<char>) -> Option<(FixedLinkKind, Seq<char>, Seq<char>, Seq<char>)> {
    if exists|k: FixedLinkKind, a: Seq<char>, b: Seq<char>, m: Seq<char>| is_link_line(line, k, a, b, m) {
        Some(choose|k: FixedLinkKind, a: Seq<char>, b: Seq<char>, m: Seq<char>| is_link_line(line, k, a, b, m))
    } else {
        None
    }
}

/// Where the parts of a fixed-link line stand.
proof fn lemma_link_line_positions(s: Seq<char>, k: FixedLinkKind, a: Seq<char>, b: Seq<char>, gap: nat, m: Seq<char>, tail: nat)
    requires
        link_parts(s, k, a, b, gap, m, tail),
    ensures
        ({
            let kind_end: int = 17 + kind_word(k).len() as int;
            let mins_at: int = kind_end + 23 + gap;
            let mins_end: int = mins_at + m.len();
            &&& s.len() == mins_end + 8 + tail
            &&& s.subrange(0, 17) == "ADDITIONAL LINK: "@
            &&& s.subrange(17, kind_end) == kind_word(k)
            &&& s[17] == kind_word(k)[0]
            &&& s[18] == kind_word(k)[1]
            &&& s.subrange(kind_end, kind_end + 9) == " BETWEEN "@
            &&& s.subrange(kind_end + 9, kind_end + 12) == a
            &&& s.subrange(kind_end + 12, kind_end + 17) == " AND "@
            &&& s.subrange(kind_end + 17, kind_end + 20) == b
            &&& s.subrange(kind_end + 20, kind_end + 23) == " IN"@
            &&& (forall|i: int| kind_end + 23 <= i < mins_at ==> s[i] == ' ')
            &&& s.subrange(mins_at, mins_end) == m
            &&& s[mins_at] == m[0]
            &&& s[mins_end] == ' '
            &&& s.subrange(mins_end, mins_end + 8) == " MINUTES"@
            &&& (forall|i: int| mins_end + 8 <= i < s.len() ==> s[i] == ' ')
        }),
{
    reveal_strlit("ADDITIONAL LINK: ");
    reveal_strlit(" BETWEEN ");
    reveal_strlit(" AND ");
    reveal_strlit(" IN");
    reveal_strlit(" MINUTES");
    let w = kind_word(k);
    let kind_end: int = 17 + w.len() as int;
    let mins_at: int = kind_end + 23 + gap;
    let mins_end: int = mins_at + m.len();
    let x1 = "ADDITIONAL LINK: "@ + w;
    let x2 = x1 + " BETWEEN "@;
    let x3 = x2 + a;
    let x4 = x3 + " AND "@;
    let x5 = x4 + b;
    let x6 = x5 + " IN"@;
    let x7 = x6 + spaces(gap);
    let x8 = x7 + m;
    let x9 = x8 + " MINUTES"@;
    assert(s == x9 + spaces(tail));
    assert(s.subrange(0, x9.len() as int) =~= x9);
    assert(x9.subrange(0, x8.len() as int) =~= x8);
    assert(x8.subrange(0, x7.len() as int) =~= x7);
    assert(x7.subrange(0, x6.len() as int) =~= x6);
    assert(x6.subrange(0, x5.len() as int) =~= x5);
    assert(x5.subrange(0, x4.len() as int) =~= x4);
    assert(x4.subrange(0, x3.len() as int) =~= x3);
    assert(x3.subrange(0, x2.len() as int) =~= x2);
    assert(x2.subrange(0, x1.len() as int) =~= x1);
    assert(s.subrange(0, 17) =~= x1.subrange(0, 17));
    assert(s.subrange(17, kind_end) =~= x1.subrange(17, kind_end));
    assert(s.subrange(kind_end, kind_end + 9) =~= x2.subrange(kind_end, kind_end + 9));
    assert(s.subrange(kind_end + 9, kind_end + 12) =~= x3.subrange(kind_end + 9, kind_end + 12));
    assert(s.subrange(kind_end + 12, kind_end + 17) =~= x4.subrange(kind_end + 12, kind_end + 17));
    assert(s.subrange(kind_end + 17, kind_end + 20) =~= x5.subrange(kind_end + 17, kind_end + 20));
    assert(s.subrange(kind_end + 20, kind_end + 23) =~= x6.subrange(kind_end + 20, kind_end + 23));
    assert forall|i: int| kind_end + 23 <= i < mins_at implies s[i] == ' ' by {
        assert(s[i] == x7[i]);
    }
    assert(s.subrange(mins_at, mins_end) =~= x8.subrange(mins_at, mins_end));
    assert(s.subrange(mins_end, mins_end + 8) =~= x9.subrange(mins_end, mins_end + 8));
    assert(s[mins_end] == s.subrange(mins_end, mins_end + 8)[0]);
    assert(s[mins_at] == s.subrange(mins_at, mins_end)[0]);
    assert(s[17] == s.subrange(17, kind_end)[0]);
    assert(s[18] == s.subrange(17, kind_end)[1]);
    assert forall|i: int| mins_end + 8 <= i < s.len() implies s[i] == ' ' by {
        assert(s[i] == spaces(tail)[i - x9.len()]);
    }
}

/// The text of a fixed-link line with the given parts.
pub open spec fn link_line_text(k: FixedLinkKind, a: Seq<char>, b: Seq<char>, gap: nat, mins: Seq<char>, tail: nat) -> Seq<char> {
    "ADDITIONAL LINK: "@ + kind_word(k) + " BETWEEN "@ + a + " AND "@ + b + " IN"@ + spaces(gap) + mins + " MINUTES"@
        + spaces(tail)
}

/// Whether `line` at `pos` holds the text `lit`.
fn text_at(line: &str, pos: usize, lit: &str) -> (r: bool)
    requires
        line.is_ascii(),
        lit.is_ascii(),
        pos <= line@.len(),
    ensures
        r == (pos + lit@.len() <= line@.len() && line@.subrange(pos as int, pos + lit@.len()) == lit@),
{
    let n = ascii_len(line);
    let m = ascii_len(lit);
    if m > n - pos {
        return false;
    }
    let mut i: usize = 0;
    while i < m
        invariant
            n == line@.len(),
            m == lit@.len(),
            pos + m <= n,
            i <= m,
            line.is_ascii(),
            lit.is_ascii(),
            forall|q: int| 0 <= q < i ==> line@[pos + q] == lit@[q],
        decreases m - i,
    {
        if line.get_ascii(pos + i) != lit.get_ascii(i) {
            assert(line@.subrange(pos as int, pos + m)[i as int] != lit@[i as int]);
            return false;
        }
        i = i + 1;
    }
    assert(line@.subrange(pos as int, pos + m) =~= lit@);
    true
}

/// The index of the first character of `line` at or after `pos` that is not
/// a space.
fn skip_spaces(line: &str, pos: usize) -> (r: usize)
    requires
        line.is_ascii(),
        pos <= line@.len(),
    ensures
        pos <= r <= line@.len(),
        forall|i: int| pos <= i < r ==> line@[i] == ' ',
        r < line@.len() ==> line@[r as int] != ' ',
{
    let n = ascii_len(line);
    let mut i = pos;
    while i < n && line.get_ascii(i) == 32
        invariant
            n == line@.len(),
            pos <= i <= n,
            line.is_ascii(),
            forall|q: int| pos <= q < i ==> line@[q] == ' ',
        decreases n - i,
    {
        i = i + 1;
    }
    i
}

/// The index of the first character of `line` at or after `pos` that is not
/// a digit.
fn skip_digits(line: &str, pos: usize) -> (r: usize)
    requires
        line.is_ascii(),
        pos <= line@.len(),
    ensures
        pos <= r <= line@.len(),
        forall|i: int| pos <= i < r ==> is_digit(#[trigger] line@[i]),
        r < line@.len() ==> !is_digit(line@[r as int]),
{
    let n = ascii_len(line);
    let mut i = pos;
    while i < n && 48 <= line.get_ascii(i) && line.get_ascii(i) <= 57
        invariant
            n == line@.len(),
            pos <= i <= n,
            line.is_ascii(),
            forall|q: int| pos <= q < i ==> is_digit(#[trigger] line@[q]),
        decreases n - i,
    {
        i = i + 1;
    }
    i
}

/// Whether `line` at `pos` holds three capital letters.
fn code_at(line: &str, pos: usize) -> (r: bool)
    requires
        line.is_ascii(),
        pos <= line@.len(),
    ensures
        r == (pos + 3 <= line@.len() && is_code(line@.subrange(pos as int, pos + 3))),
{
    let n = ascii_len(line);
    if n - pos < 3 {
        return false;
    }
    let c0 = line.get_ascii(pos);
    let c1 = line.get_ascii(pos + 1);
    let c2 = line.get_ascii(pos + 2);
    let r = 65 <= c0 && c0 <= 90 && 65 <= c1 && c1 <= 90 && 65 <= c2 && c2 <= 90;
    proof {
        let sub = line@.subrange(pos as int, pos + 3);
        assert(sub[0] == line@[pos as int] && sub[1] == line@[pos + 1] && sub[2] == line@[pos + 2]);
    }
    r
}

/// A line whose parts stand at the given places is a fixed-link line.
proof fn lemma_link_line_parts(s: Seq<char>, kind: FixedLinkKind, kind_end: int, mins_at: int, mins_end: int)
    requires
        kind_end == 17 + kind_word(kind).len(),
        kind_end + 23 < mins_at < mins_end,
        mins_end + 8 <= s.len(),
        s.subrange(0, 17) == "ADDITIONAL LINK: "@,
        s.subrange(17, kind_end) == kind_word(kind),
        s.subrange(kind_end, kind_end + 9) == " BETWEEN "@,
        s.subrange(kind_end + 12, kind_end + 17) == " AND "@,
        s.subrange(kind_end + 20, kind_end + 23) == " IN"@,
        forall|i: int| kind_end + 23 <= i < mins_at ==> s[i] == ' ',
        s.subrange(mins_end, mins_end + 8) == " MINUTES"@,
        forall|i: int| mins_end + 8 <= i < s.len() ==> s[i] == ' ',
    ensures
        s == link_line_text(kind, s.subrange(kind_end + 9, kind_end + 12), s.subrange(kind_end + 17, kind_end + 20), (mins_at - kind_end - 23) as nat,
            s.subrange(mins_at, mins_end), (s.len() - mins_end - 8) as nat),
{
    let gap = (mins_at - kind_end - 23) as nat;
    let tail = (s.len() - mins_end - 8) as nat;
    assert(s.subrange(kind_end + 23, mins_at) =~= spaces(gap));
    assert(s.subrange(mins_end + 8, s.len() as int) =~= spaces(tail));
    let t = link_line_text(kind, s.subrange(kind_end + 9, kind_end + 12), s.subrange(kind_end + 17, kind_end + 20), gap, s.subrange(mins_at, mins_end), tail);
    assert(s =~= s.subrange(0, 17) + s.subrange(17, kind_end) + s.subrange(kind_end, kind_end + 9) + s.subrange(kind_end + 9, kind_end + 12)
        + s.subrange(kind_end + 12, kind_end + 17) + s.subrange(kind_end + 17, kind_end + 20) + s.subrange(kind_end + 20, kind_end + 23)
        + s.subrange(kind_end + 23, mins_at) + s.subrange(mins_at, mins_end) + s.subrange(mins_end, mins_end + 8) + s.subrange(mins_end + 8, s.len() as int));
    assert(s == t);
}

/// Two kinds whose words start with the same two letters are the same.
proof fn lemma_kind_by_first_letters(k: FixedLinkKind, k2: FixedLinkKind)
    requires
        kind_word(k)[0] == kind_word(k2)[0],
        kind_word(k)[1] == kind_word(k2)[1],
    ensures
        k == k2,
{
}

/// The kind whose word stands at column 17 of `line`, with that word.
fn kind_at(line: &str) -> (r: Option<(FixedLinkKind, &'static str)>)
    requires
        line.is_ascii(),
        17 <= line@.len(),
    ensures
        r matches Some((k, w)) ==> w@ == kind_word(k) && 17 + w@.len() <= line@.len()
            && line@.subrange(17, 17 + w@.len() as int) == w@ && w.is_ascii(),
        r is None ==> forall|k: FixedLinkKind| !(17 + kind_word(k).len() <= line@.len()
            && #[trigger] line@.subrange(17, 17 + kind_word(k).len() as int) == kind_word(k)),
{
    proof {
        reveal_strlit("WALK");
        reveal_strlit("TUBE");
        reveal_strlit("METRO");
        reveal_strlit("BUS");
        reveal_strlit("FERRY");
        reveal_strlit("TRANSFER");
    }
    if text_at(line, 17, "WALK") {
        Some((FixedLinkKind::Walk, "WALK"))
    } else if text_at(line, 17, "TUBE") {
        Some((FixedLinkKind::Tube, "TUBE"))
    } else if text_at(line, 17, "METRO") {
        Some((FixedLinkKind::Metro, "METRO"))
    } else if text_at(line, 17, "BUS") {
        Some((FixedLinkKind::Bus, "BUS"))
    } else if text_at(line, 17, "FERRY") {
        Some((FixedLinkKind::Ferry, "FERRY"))
    } else if text_at(line, 17, "TRANSFER") {
        Some((FixedLinkKind::Transfer, "TRANSFER"))
    } else {
        proof {
            assert forall|k: FixedLinkKind| !(17 + kind_word(k).len() <= line@.len()
                && #[trigger] line@.subrange(17, 17 + kind_word(k).len() as int) == kind_word(k)) by {
                match k {
                    FixedLinkKind::Walk => assert("WALK"@ =~= kind_word(k)),
                    FixedLinkKind::Tube => assert("TUBE"@ =~= kind_word(k)),
                    FixedLinkKind::Metro => assert("METRO"@ =~= kind_word(k)),
                    FixedLinkKind::Bus => assert("BUS"@ =~= kind_word(k)),
                    FixedLinkKind::Ferry => assert("FERRY"@ =~= kind_word(k)),
                    FixedLinkKind::Transfer => assert("TRANSFER"@ =~= kind_word(k)),
                }
            }
        }
        None
    }
}

/// Whether `line` has the parts of a fixed-link line.
pub open spec fn has_link_parts(line: Seq<char>) -> bool {
    exists|k: FixedLinkKind, a: Seq<char>, b: Seq<char>, gap: nat, m: Seq<char>, tail: nat|
        link_parts(line, k, a, b, gap, m, tail)
}

/// The head of a fixed-link line read: the prefix, and the kind's word
/// ending at `kind_end`.
spec fn head_read(s: Seq<char>, k: FixedLinkKind, kind_end: int) -> bool {
    &&& kind_end == 17 + kind_word(k).len()
    &&& kind_end <= s.len()
    &&& s.subrange(0, 17) == "ADDITIONAL LINK: "@
    &&& s.subrange(17, kind_end) == kind_word(k)
    &&& forall|k2: FixedLinkKind, a2: Seq<char>, b2: Seq<char>, gap2: nat, m2: Seq<char>, tail2: nat|
        #[trigger] link_parts(s, k2, a2, b2, gap2, m2, tail2) ==> k2 == k
}

/// Reads the prefix and the kind of a fixed-link line.
fn link_head(line: &str) -> (r: Option<(FixedLinkKind, usize)>)
    requires
        line.is_ascii(),
    ensures
        r matches Some((k, kind_end)) ==> head_read(line@, k, kind_end as int),
        r is None ==> !has_link_parts(line@),
{
    proof {
        reveal_strlit("ADDITIONAL LINK: ");
    }
    let ghost s = line@;
    if !text_at(line, 0, "ADDITIONAL LINK: ") {
        proof {
            if has_link_parts(s) {
                let (k, a, b, gap, m, tail) = choose|k: FixedLinkKind, a: Seq<char>, b: Seq<char>, gap: nat, m: Seq<char>, tail: nat|
                    link_parts(s, k, a, b, gap, m, tail);
                lemma_link_line_positions(s, k, a, b, gap, m, tail);
            }
        }
        return None;
    }
    match kind_at(line) {
        Some((kind, word)) => {
            proof {
                assert(s[17] == kind_word(kind)[0] && s[18] == kind_word(kind)[1]) by {
                    assert(s.subrange(17, 17 + word@.len() as int)[0] == s[17]);
                    assert(s.subrange(17, 17 + word@.len() as int)[1] == s[18]);
                }
                assert forall|k2: FixedLinkKind, a2: Seq<char>, b2: Seq<char>, gap2: nat, m2: Seq<char>, tail2: nat|
                    #[trigger] link_parts(s, k2, a2, b2, gap2, m2, tail2) implies k2 == kind by {
                    lemma_link_line_positions(s, k2, a2, b2, gap2, m2, tail2);
                    lemma_kind_by_first_letters(kind, k2);
                }
            }
            Some((kind, 17 + ascii_len(word)))
        },
        None => {
            proof {
                if has_link_parts(s) {
                    let (k, a, b, gap, m, tail) = choose|k: FixedLinkKind, a: Seq<char>, b: Seq<char>, gap: nat, m: Seq<char>, tail: nat|
                        link_parts(s, k, a, b, gap, m, tail);
                    lemma_link_line_positions(s, k, a, b, gap, m, tail);
                    assert(s.subrange(17, 17 + kind_word(k).len() as int) == kind_word(k));
                }
            }
            None
        },
    }
}

/// The middle of a fixed-link line read: ` BETWEEN `, a code, ` AND `, a
/// code and ` IN` after the head.
spec fn middle_read(s: Seq<char>, kind_end: int) -> bool {
    &&& kind_end + 23 <= s.len()
    &&& s.subrange(kind_end, kind_end + 9) == " BETWEEN "@
    &&& is_code(s.subrange(kind_end + 9, kind_end + 12))
    &&& s.subrange(kind_end + 12, kind_end + 17) == " AND "@
    &&& is_code(s.subrange(kind_end + 17, kind_end + 20))
    &&& s.subrange(kind_end + 20, kind_end + 23) == " IN"@
}

/// Reads the middle of a fixed-link line.
fn link_middle(line: &str, k: Ghost<FixedLinkKind>, kind_end: usize) -> (r: bool)
    requires
        line.is_ascii(),
        head_read(line@, k@, kind_end as int),
    ensures
        r ==> middle_read(line@, kind_end as int),
        !r ==> !has_link_parts(line@),
{
    proof {
        reveal_strlit(" BETWEEN ");
        reveal_strlit(" AND ");
        reveal_strlit(" IN");
    }
    let ghost s = line@;
    let ok = text_at(line, kind_end, " BETWEEN ") && code_at(line, kind_end + 9) && text_at(line, kind_end + 12, " AND ")
        && code_at(line, kind_end + 17) && text_at(line, kind_end + 20, " IN");
    proof {
        if !ok && has_link_parts(s) {
            let (k2, a, b, gap, m, tail) = choose|k2: FixedLinkKind, a: Seq<char>, b: Seq<char>, gap: nat, m: Seq<char>, tail: nat|
                link_parts(s, k2, a, b, gap, m, tail);
            lemma_link_line_positions(s, k2, a, b, gap, m, tail);
            assert(k2 == k@);
        }
    }
    ok
}

/// The end of a fixed-link line read: spaces from `kind_end + 23` to `mins_at`, digits
/// to `mins_end`, ` MINUTES` and spaces to the end.
spec fn end_read(s: Seq<char>, kind_end: int, mins_at: int, mins_end: int) -> bool {
    &&& kind_end + 23 < mins_at < mins_end
    &&& mins_end + 8 <= s.len()
    &&& (forall|i: int| kind_end + 23 <= i < mins_at ==> s[i] == ' ')
    &&& (forall|i: int| mins_at <= i < mins_end ==> is_digit(#[trigger] s[i]))
    &&& s.subrange(mins_end, mins_end + 8) == " MINUTES"@
    &&& (forall|i: int| mins_end + 8 <= i < s.len() ==> s[i] == ' ')
    &&& forall|k2: FixedLinkKind, a2: Seq<char>, b2: Seq<char>, gap2: nat, m2: Seq<char>, tail2: nat|
        #[trigger] link_parts(s, k2, a2, b2, gap2, m2, tail2) ==> mins_at == kind_end + 23 + gap2 && mins_end == mins_at + m2.len()
}

/// Reads the end of a fixed-link line.
fn link_end(line: &str, k: Ghost<FixedLinkKind>, kind_end: usize) -> (r: Option<(usize, usize)>)
    requires
        line.is_ascii(),
        head_read(line@, k@, kind_end as int),
        middle_read(line@, kind_end as int),
    ensures
        r matches Some((mins_at, mins_end)) ==> end_read(line@, kind_end as int, mins_at as int, mins_end as int),
        r is None ==> !has_link_parts(line@),
{
    proof {
        reveal_strlit(" MINUTES");
    }
    let ghost s = line@;
    let n = ascii_len(line);
    let gap_at = kind_end + 23;
    let mins_at = skip_spaces(line, gap_at);
    let mins_end = skip_digits(line, mins_at);
    let ok = mins_at != gap_at && mins_end != mins_at && text_at(line, mins_end, " MINUTES") && skip_spaces(line, mins_end + 8) == n;
    proof {
        assert forall|k2: FixedLinkKind, a2: Seq<char>, b2: Seq<char>, gap2: nat, m2: Seq<char>, tail2: nat|
            #[trigger] link_parts(s, k2, a2, b2, gap2, m2, tail2) implies mins_at == kind_end + 23 + gap2 && mins_end == mins_at + m2.len() by {
            lemma_link_line_positions(s, k2, a2, b2, gap2, m2, tail2);
            assert(k2 == k@);
            assert(is_digit(m2[0]));
            assert(mins_at == gap_at + gap2);
            assert forall|i: int| mins_at <= i < mins_at + m2.len() implies is_digit(#[trigger] s[i]) by {
                assert(s.subrange(mins_at as int, mins_at + m2.len())[i - mins_at] == s[i]);
            }
        }
        if !ok && has_link_parts(s) {
            let (k2, a, b, gap, m, tail) = choose|k2: FixedLinkKind, a: Seq<char>, b: Seq<char>, gap: nat, m: Seq<char>, tail: nat|
                link_parts(s, k2, a, b, gap, m, tail);
            lemma_link_line_positions(s, k2, a, b, gap, m, tail);
        }
    }
    if ok {
        Some((mins_at, mins_end))
    } else {
        None
    }
}

/// Reads a fixed-link line into its kind, its two CRS codes and its minutes;
/// `None` for any other line.
pub fn parse_link_line(line: &str) -> (r: Option<(FixedLinkKind, &str, &str, &str)>)
    requires
        line.is_ascii(),
    ensures
        r matches Some((k, a, b, m)) ==> link_of_line(line@) == Some((k, a@, b@, m@)) && is_link_line(line@, k, a@, b@, m@)
            && a.is_ascii() && b.is_ascii() && m.is_ascii(),
        r is None ==> link_of_line(line@) is None,
{
    let ghost s = line@;
    proof {
        if !has_link_parts(s) {
            assert forall|k: FixedLinkKind, a: Seq<char>, b: Seq<char>, m: Seq<char>| !is_link_line(s, k, a, b, m) by {
                if is_link_line(s, k, a, b, m) {
                    let (gap, tail) = choose|gap: nat, tail: nat| link_parts(s, k, a, b, gap, m, tail);
                }
            }
        }
    }
    let (kind, kind_end) = match link_head(line) {
        Some(h) => h,
        None => return None,
    };
    if !link_middle(line, Ghost(kind), kind_end) {
        return None;
    }
    let (mins_at, mins_end) = match link_end(line, Ghost(kind), kind_end) {
        Some(e) => e,
        None => return None,
    };
    let n = ascii_len(line);
    let a = line.substring_ascii(kind_end + 9, kind_end + 12);
    let b = line.substring_ascii(kind_end + 17, kind_end + 20);
    let m = line.substring_ascii(mins_at, mins_end);
    proof {
        reveal_strlit(" MINUTES");
        lemma_link_line_parts(s, kind, kind_end as int, mins_at as int, mins_end as int);
        let gap = (mins_at - kind_end - 23) as nat;
        let tail = (n - mins_end - 8) as nat;
        assert forall|i: int| 0 <= i < m@.len() implies is_digit(#[trigger] m@[i]) by {
            assert(m@[i] == s[mins_at + i]);
        }
        assert(link_parts(s, kind, a@, b@, gap, m@, tail));
        assert forall|k2: FixedLinkKind, a2: Seq<char>, b2: Seq<char>, m2: Seq<char>| is_link_line(s, k2, a2, b2, m2)
            implies k2 == kind && a2 == a@ && b2 == b@ && m2 == m@ by {
            let (gap2, tail2) = choose|gap2: nat, tail2: nat| link_parts(s, k2, a2, b2, gap2, m2, tail2);
            lemma_link_line_positions(s, k2, a2, b2, gap2, m2, tail2);
        }
        assert(is_link_line(s, kind, a@, b@, m@));
    }
    Some((kind, a, b, m))
}

/// The link that a line gives under the stations: `None` for a line of
/// another form, `Err(())` where a code names no station or the time does not
/// fit in seconds.
pub open spec fn link_from_line(st: Seq<Station>, line: Seq<char>) -> Option<Result<FixedLink, ()>> {
    match link_of_line(line) {
        None => None,
        Some((k, a, b, m)) => Some(
            match (first_crs(st, a), first_crs(st, b), digits_value(m)) {
                (Some(ia), Some(ib), Some(v)) => if v * 60 <= u32::MAX {
                    Ok(FixedLink { a: ia as usize, b: ib as usize, time: (v * 60) as u32, kind: k })
                } else {
                    Err(())
                },
                _ => Err(()),
            }
        ),
    }
}

/// The links that the lines give in order, or the 1-based number of the
/// first line that is in error.
pub open spec fn links_of_lines(st: Seq<Station>, lines: Seq<Seq<char>>) -> Result<Seq<FixedLink>, int>
    decreases lines.len(),
{
    if lines.len() == 0 {
        Ok(Seq::empty())
    } else {
        match links_of_lines(st, lines.drop_last()) {
            Err(n) => Err(n),
            Ok(links) => match link_from_line(st, lines.last()) {
                None => Ok(links),
                Some(Ok(l)) => Ok(links.push(l)),
                Some(Err(())) => Err(lines.len() as int),
            },
        }
    }
}

proof fn lemma_links_prefix_err(st: Seq<Station>, lines: Seq<Seq<char>>, k: int)
    requires
        0 <= k <= lines.len(),
        links_of_lines(st, lines.subrange(0, k)) is Err,
    ensures
        links_of_lines(st, lines) == links_of_lines(st, lines.subrange(0, k)),
    decreases lines.len(),
{
    if k == lines.len() {
        assert(lines.subrange(0, k) =~= lines);
    } else {
        assert(lines.drop_last().subrange(0, k) =~= lines.subrange(0, k));
        lemma_links_prefix_err(st, lines.drop_last(), k);
    }
}

/// Whether `reason` tells why the fixed-link line `line` is in error: the
/// first of its two codes that names no station, or else its minutes, whose
/// time in seconds does not fit.
pub open spec fn link_error_reason(st: Seq<Station>, line: Seq<char>, reason: ErrorReason) -> bool {
    match link_of_line(line) {
        Some((k, a, b, m)) => if first_crs(st, a) is None {
            reason matches ErrorReason::UnknownStation { key } && key@ == a
        } else if first_crs(st, b) is None {
            reason matches ErrorReason::UnknownStation { key } && key@ == b
        } else {
            reason matches ErrorReason::BadField { text, .. } && text@ == m
        },
        None => false,
    }
}

/// The id of the first station of a CRS code; an error naming the code and
/// the line where none has it.
fn station_or_err(stations: &StationList, crs: &str, line: usize) -> (r: Result<StationId, RailError>)
    requires
        stations.wf(),
    ensures
        r matches Ok(id) ==> first_crs(stations@, crs@) == Some(id as int) && id < stations@.len(),
        r matches Err(e) ==> e.kind == ErrorKind::InvalidData && e.line == line && first_crs(stations@, crs@) is None
            && (e.reason matches ErrorReason::UnknownStation { key } && key@ == crs@),
{
    match stations.get_by_crs(crs) {
        Some(stat) => Ok(stat.id),
        None => Err(RailError { kind: ErrorKind::InvalidData, line, reason: ErrorReason::UnknownStation { key: crs.to_owned() } }),
    }
}

/// Reads the fixed-link feed: one link for each line of the form that
/// `is_link_line` describes, between the first stations of its two CRS
/// codes, its time the minutes times sixty. Other lines are skipped. A code
/// that names no station, or a time that does not fit, is an error on that
/// line.
pub fn parse_fixed_links(stations: &StationList, text: &str) -> (r: Result<Vec<FixedLink>, RailError>)
    requires
        stations.wf(),
        text.is_ascii(),
    ensures
        r matches Ok(links) ==> links_of_lines(stations@, text_lines(text@)) == Ok::<Seq<FixedLink>, int>(links@),
        r matches Err(e) ==> links_of_lines(stations@, text_lines(text@)) == Err::<Seq<FixedLink>, int>(e.line as int)
            && e.kind == ErrorKind::InvalidData && 1 <= e.line <= text_lines(text@).len()
            && link_error_reason(stations@, text_lines(text@)[e.line - 1], e.reason),
        r matches Ok(links) ==> forall|i: int| 0 <= i < links@.len() ==> (#[trigger] links@[i]).a < stations@.len()
            && links@[i].b < stations@.len(),
{
    let mut links: Vec<FixedLink> = Vec::new();
    let n = ascii_len(text);
    let mut pos: usize = 0;
    let mut line_num: usize = 0;
    let ghost all = text_lines(text@);
    while pos < n
        invariant
            n == text@.len(),
            text.is_ascii(),
            stations.wf(),
            pos <= n,
            line_num <= pos,
            all == text_lines(text@),
            line_num <= all.len(),
            all == all.subrange(0, line_num as int) + lines_from(text@, pos as int),
            links_of_lines(stations@, all.subrange(0, line_num as int)) == Ok::<Seq<FixedLink>, int>(links@),
            forall|i: int| 0 <= i < links@.len() ==> (#[trigger] links@[i]).a < stations@.len()
                && links@[i].b < stations@.len(),
        decreases n - pos,
    {
        let (line, next) = line_at(text, pos);
        let ghost done = all.subrange(0, line_num as int);
        let ghost rest = lines_from(text@, next as int);
        pos = next;
        line_num = line_num + 1;
        proof {
            assert(all == done + (seq![line@] + rest));
            assert(all.subrange(0, line_num as int) =~= done.push(line@));
            assert(all =~= all.subrange(0, line_num as int) + rest);
            assert(all.subrange(0, line_num as int).drop_last() =~= done);
            assert(all[line_num - 1] == line@);
        }
        if let Some((kind, a_code, b_code, mins_text)) = parse_link_line(line) {
            let a = match station_or_err(stations, a_code, line_num) {
                Ok(id) => id,
                Err(e) => {
                    proof {
                        lemma_links_prefix_err(stations@, all, line_num as int);
                    }
                    return Err(e);
                },
            };
            let b = match station_or_err(stations, b_code, line_num) {
                Ok(id) => id,
                Err(e) => {
                    proof {
                        lemma_links_prefix_err(stations@, all, line_num as int);
                    }
                    return Err(e);
                },
            };
            proof {
                let (gap, tail) = choose|gap: nat, tail: nat| link_parts(line@, kind, a_code@, b_code@, gap, mins_text@, tail);
                assert(is_digit(mins_text@[0]));
                assert(mins_text@[0] != '+');
                assert(decimal_value(mins_text@, false) == digits_value(mins_text@));
                lemma_digits_number_nonneg(mins_text@);
                let v = digits_number(mins_text@);
                if v > u32::MAX {
                    assert(v * 60 > u32::MAX) by (nonlinear_arith)
                        requires v > u32::MAX;
                }
            }
            let mins = match parse_u32(mins_text) {
                Some(v) => v,
                None => {
                    proof {
                        lemma_links_prefix_err(stations@, all, line_num as int);
                    }
                    return Err(RailError { kind: ErrorKind::InvalidData, line: line_num, reason: ErrorReason::BadField { field: "minutes".to_owned(), text: mins_text.to_owned() } });
                },
            };
            if mins > u32::MAX / 60 {
                proof {
                    lemma_links_prefix_err(stations@, all, line_num as int);
                }
                return Err(RailError { kind: ErrorKind::InvalidData, line: line_num, reason: ErrorReason::BadField { field: "minutes".to_owned(), text: mins_text.to_owned() } });
            }
            links.push(FixedLink { a, b, time: mins * 60, kind });
        }
    }
    proof {
        assert(lines_from(text@, pos as int) =~= Seq::<Seq<char>>::empty());
        assert(all.subrange(0, line_num as int) =~= all);
    }
    Ok(links)
}

} // verus!
