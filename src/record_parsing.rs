//! Helpers for fixed-width ASCII records: text equality, field extraction,
//! trimming and decimal numbers, and the error type of the parsers.
use vstd::prelude::*;
use vstd::utf8::encode_utf8_decode_utf8;
use vstd::string::StringSliceAdditionalSpecFns;

verus! {

/// Why a record could not be read.
#[derive(Debug, Clone, PartialEq, Eq)]
pub enum ErrorKind {
    /// A record or field holds data that does not fit its format.
    InvalidData,
    /// The input ended inside an open service record.
    UnexpectedEof,
}

/// An error from one of the parsers. `line` is the 1-based line of the input
/// where it arose, or 0 where the record was read on its own.
#[derive(Debug, Clone, PartialEq, Eq)]
pub struct RailError {
    pub kind: ErrorKind,
    pub line: usize,
    pub reason: ErrorReason,
}

/// The detail of a `RailError`.
#[derive(Debug, Clone, PartialEq, Eq)]
pub enum ErrorReason {
    /// The record is `len` characters long but its field `field` reaches `needed`.
    RecordTooShort { field: String, len: usize, needed: usize },
    /// The field `field` does not hold a value of its type.
    BadField { field: String, text: String },
    /// A record names a station that is not registered.
    UnknownStation { key: String },
    /// The input ended before the terminal record of a service.
    ServiceNotTerminated,
    /// The timetable holds more services than ids can number.
    TooManyServices,
}

/// A data error carrying no line yet.
pub fn invalid(reason: ErrorReason) -> (r: RailError)
    ensures
        r.kind == ErrorKind::InvalidData,
        r.line == 0,
        r.reason == reason,
{
    RailError { kind: ErrorKind::InvalidData, line: 0, reason }
}

/// Whether a character is whitespace, as `char::is_whitespace` decides it on ASCII.
pub open spec fn is_space(c: char) -> bool {
    c == ' ' || ('\t' <= c && c <= '\r')
}

/// Index of the first character of `s` that is not whitespace, from `i` on.
pub open spec fn first_non_space(s: Seq<char>, i: int) -> int
    decreases s.len() - i,
{
    if i >= s.len() || !is_space(s[i]) {
        i
    } else {
        first_non_space(s, i + 1)
    }
}

/// One past the last character of `s[..j]` that is not whitespace.
pub open spec fn last_non_space(s: Seq<char>, j: int) -> int
    decreases j,
{
    if j <= 0 || !is_space(s[j - 1]) {
        j
    } else {
        last_non_space(s, j - 1)
    }
}

/// `s` without leading and trailing whitespace.
pub open spec fn trimmed(s: Seq<char>) -> Seq<char> {
    let a = first_non_space(s, 0);
    let b = last_non_space(s, s.len() as int);
    if a >= b {
        Seq::empty()
    } else {
        s.subrange(a, b)
    }
}

/// The field of `len` characters at `offset`, trimmed; `None` where the record
/// is too short to hold it.
pub open spec fn record_field(rec: Seq<char>, offset: int, len: int) -> Option<Seq<char>> {
    if offset + len > rec.len() {
        None
    } else {
        Some(trimmed(rec.subrange(offset, offset + len)))
    }
}

proof fn lemma_first_non_space_bounds(s: Seq<char>, i: int)
    requires
        0 <= i <= s.len(),
    ensures
        i <= first_non_space(s, i) <= s.len(),
        forall|k: int| i <= k < first_non_space(s, i) ==> is_space(#[trigger] s[k]),
    decreases s.len() - i,
{
    if i < s.len() && is_space(s[i]) {
        lemma_first_non_space_bounds(s, i + 1);
    }
}

proof fn lemma_last_non_space_bounds(s: Seq<char>, j: int)
    requires
        0 <= j <= s.len(),
    ensures
        0 <= last_non_space(s, j) <= j,
        forall|k: int| last_non_space(s, j) <= k < j ==> is_space(#[trigger] s[k]),
    decreases j,
{
    if j > 0 && is_space(s[j - 1]) {
        lemma_last_non_space_bounds(s, j - 1);
    }
}

/// Whether two texts are equal.
pub fn str_equal(a: &str, b: &str) -> (r: bool)
    ensures
        r == (a@ == b@),
{
    broadcast use encode_utf8_decode_utf8;

    let x = a.as_bytes();
    let y = b.as_bytes();
    if x.len() != y.len() {
        return false;
    }
    proof {
        encode_utf8_decode_utf8(a@);
        encode_utf8_decode_utf8(b@);
    }
    let mut i: usize = 0;
    while i < x.len()
        invariant
            x@ == a.spec_bytes(),
            y@ == b.spec_bytes(),
            x@.len() == y@.len(),
            i <= x@.len(),
            forall|k: int| 0 <= k < i ==> x@[k] == y@[k],
        decreases x@.len() - i,
    {
        if x[i] != y[i] {
            return false;
        }
        i = i + 1;
    }
    assert(x@ =~= y@);
    proof {
        encode_utf8_decode_utf8(a@);
        encode_utf8_decode_utf8(b@);
    }
    true
}

/// The length of an ASCII text, in characters.
pub fn ascii_len(s: &str) -> (n: usize)
    requires
        s.is_ascii(),
    ensures
        n == s@.len(),
{
    proof {
        assert(vstd::utf8::is_ascii_chars(s@));
        vstd::utf8::is_ascii_chars_encode_utf8(s@);
        assert(s.spec_bytes().len() == s@.len());
    }
    s.as_bytes().len()
}

/// Whether `needle` occurs in `hay` at character position `at`.
pub open spec fn occurs_at(hay: Seq<char>, needle: Seq<char>, at: int) -> bool {
    0 <= at && at + needle.len() <= hay.len() && hay.subrange(at, at + needle.len()) == needle
}

/// Whether `needle` occurs somewhere in `hay`.
pub open spec fn contains_text(hay: Seq<char>, needle: Seq<char>) -> bool {
    exists|at: int| occurs_at(hay, needle, at)
}

/// Whether `needle` occurs in `hay`; both are ASCII.
pub fn str_contains(hay: &str, needle: &str) -> (r: bool)
    requires
        hay.is_ascii(),
        needle.is_ascii(),
    ensures
        r == contains_text(hay@, needle@),
{
    broadcast use vstd::string::is_ascii_spec_bytes;

    let n = ascii_len(hay);
    let m = ascii_len(needle);
    if m > n {
        assert forall|at: int| !occurs_at(hay@, needle@, at) by {
            if 0 <= at && at + needle@.len() <= hay@.len() {
            }
        }
        return false;
    }
    let mut at: usize = 0;
    while at <= n - m
        invariant
            n == hay@.len(),
            m == needle@.len(),
            m <= n,
            at <= n - m + 1,
            hay.is_ascii(),
            needle.is_ascii(),
            forall|p: int| 0 <= p < at ==> !occurs_at(hay@, needle@, p),
        decreases n - at,
    {
        let mut k: usize = 0;
        let mut same = true;
        while k < m
            invariant
                n == hay@.len(),
                m == needle@.len(),
                at + m <= n,
                k <= m,
                hay.is_ascii(),
                needle.is_ascii(),
                same == (forall|q: int| 0 <= q < k ==> hay@[at + q] == needle@[q]),
            decreases m - k,
        {
            if hay.get_ascii(at + k) != needle.get_ascii(k) {
                same = false;
            }
            k = k + 1;
        }
        if same {
            assert(hay@.subrange(at as int, at + m) =~= needle@);
            assert(occurs_at(hay@, needle@, at as int));
            return true;
        }
        assert(!occurs_at(hay@, needle@, at as int)) by {
            if occurs_at(hay@, needle@, at as int) {
                assert forall|q: int| 0 <= q < m implies hay@[at + q] == needle@[q] by {
                    assert(hay@.subrange(at as int, at + m)[q] == hay@[at + q]);
                }
            }
        }
        at = at + 1;
    }
    assert forall|p: int| !occurs_at(hay@, needle@, p) by {
        if p >= at {
            assert(p + m > n);
        }
    }
    false
}

/// Extracts the trimmed field of `len` characters at `offset` from an ASCII record.
pub fn extract_record_field<'a>(fieldname: &str, rec: &'a str, offset: usize, len: usize) -> (r: Result<&'a str, RailError>)
    requires
        rec.is_ascii(),
    ensures
        r matches Ok(f) ==> record_field(rec@, offset as int, len as int) == Some(f@) && f.is_ascii(),
        r matches Err(e) ==> record_field(rec@, offset as int, len as int) is None
            && e.kind == ErrorKind::InvalidData && e.line == 0
            && (e.reason matches ErrorReason::RecordTooShort { len: n, .. } && n == rec@.len()),
{
    broadcast use vstd::string::is_ascii_spec_bytes;

    let n = ascii_len(rec);
    if offset > n || len > n - offset {
        return Err(invalid(ErrorReason::RecordTooShort { field: fieldname.to_owned(), len: n, needed: offset.wrapping_add(len) }));
    }
    let field = rec.substring_ascii(offset, offset + len);
    Ok(trim_ascii(field))
}

/// `s` without leading and trailing whitespace.
pub fn trim_ascii(s: &str) -> (r: &str)
    requires
        s.is_ascii(),
    ensures
        r@ == trimmed(s@),
        r.is_ascii(),
{
    broadcast use vstd::string::is_ascii_spec_bytes;

    let n = ascii_len(s);
    let mut a: usize = 0;
    while a < n && is_space_byte(s.get_ascii(a))
        invariant
            n == s@.len(),
            a <= n,
            s.is_ascii(),
            first_non_space(s@, 0) == first_non_space(s@, a as int),
        decreases n - a,
    {
        a = a + 1;
    }
    let mut b: usize = n;
    while b > 0 && is_space_byte(s.get_ascii(b - 1))
        invariant
            n == s@.len(),
            b <= n,
            s.is_ascii(),
            last_non_space(s@, n as int) == last_non_space(s@, b as int),
        decreases b,
    {
        b = b - 1;
    }
    if a >= b {
        s.substring_ascii(0, 0)
    } else {
        s.substring_ascii(a, b)
    }
}

fn is_space_byte(c: u8) -> (r: bool)
    ensures
        r == is_space(c as char),
{
    c == 32 || (9 <= c && c <= 13)
}

/// The value of a decimal text with an optional leading sign, as
/// `str::parse` reads an integer: `None` where the text is not a number.
pub open spec fn decimal_value(s: Seq<char>, signed: bool) -> Option<int> {
    if s.len() > 0 && s[0] == '+' {
        digits_value(s.drop_first())
    } else if signed && s.len() > 0 && s[0] == '-' {
        match digits_value(s.drop_first()) {
            Some(v) => Some(-v),
            None => None,
        }
    } else {
        digits_value(s)
    }
}

/// The value of a non-empty run of ASCII digits.
pub open spec fn digits_value(s: Seq<char>) -> Option<int> {
    if s.len() > 0 && forall|i: int| 0 <= i < s.len() ==> crate::timetable::is_digit(#[trigger] s[i]) {
        Some(digits_number(s))
    } else {
        None
    }
}

/// The number that a run of ASCII digits stands for.
pub open spec fn digits_number(s: Seq<char>) -> int
    decreases s.len(),
{
    if s.len() == 0 {
        0
    } else {
        10 * digits_number(s.drop_last()) + crate::timetable::digit_value(s.last())
    }
}

pub proof fn lemma_digits_number_nonneg(s: Seq<char>)
    requires
        forall|i: int| 0 <= i < s.len() ==> crate::timetable::is_digit(#[trigger] s[i]),
    ensures
        digits_number(s) >= 0,
    decreases s.len(),
{
    if s.len() > 0 {
        lemma_digits_number_nonneg(s.drop_last());
    }
}

/// Reads the run of digits `s[from..]` as a number, or `None` where it does
/// not fit below `limit`.
fn read_digits(s: &str, from: usize, limit: u64) -> (r: Option<u64>)
    requires
        s.is_ascii(),
        from <= s@.len(),
        0 < limit <= u32::MAX as u64 + 1,
    ensures
        ({
            let d = s@.subrange(from as int, s@.len() as int);
            match r {
                Some(v) => digits_value(d) == Some(v as int) && v < limit,
                None => digits_value(d) is None || digits_value(d).unwrap() >= limit,
            }
        }),
{
    broadcast use vstd::string::is_ascii_spec_bytes;

    let n = ascii_len(s);
    if from == n {
        return None;
    }
    let mut v: u64 = 0;
    let mut i: usize = from;
    let ghost whole = s@.subrange(from as int, n as int);
    while i < n
        invariant
            n == s@.len(),
            from < n,
            from <= i <= n,
            s.is_ascii(),
            limit <= u32::MAX as u64 + 1,
            whole == s@.subrange(from as int, n as int),
            forall|k: int| from <= k < i ==> crate::timetable::is_digit(#[trigger] s@[k]),
            v as int == digits_number(s@.subrange(from as int, i as int)),
            v < limit,
        decreases n - i,
    {
        let c = s.get_ascii(i);
        if !(48 <= c && c <= 57) {
            assert(!crate::timetable::is_digit(whole[i - from]));
            return None;
        }
        assert(s@.subrange(from as int, i + 1).drop_last() =~= s@.subrange(from as int, i as int));
        let nv: u64 = v * 10 + (c - 48) as u64;
        if nv >= limit {
            proof {
                if forall|k: int| 0 <= k < whole.len() ==> crate::timetable::is_digit(#[trigger] whole[k]) {
                    lemma_digits_prefix_bound(whole, (i + 1 - from) as int);
                    assert(whole.subrange(0, i + 1 - from) =~= s@.subrange(from as int, i + 1));
                }
            }
            return None;
        }
        v = nv;
        i = i + 1;
    }
    assert(s@.subrange(from as int, i as int) =~= whole);
    Some(v)
}

/// A number's digits never stand for less than any of their prefixes.
proof fn lemma_digits_prefix_bound(s: Seq<char>, k: int)
    requires
        0 <= k <= s.len(),
        forall|i: int| 0 <= i < s.len() ==> crate::timetable::is_digit(#[trigger] s[i]),
    ensures
        digits_number(s) >= digits_number(s.subrange(0, k)),
    decreases s.len(),
{
    if k < s.len() {
        assert(s.drop_last() =~= s.subrange(0, s.len() - 1));
        assert(s.drop_last().subrange(0, k) =~= s.subrange(0, k));
        lemma_digits_prefix_bound(s.drop_last(), k);
        lemma_digits_number_nonneg(s.drop_last());
    } else {
        assert(s.subrange(0, k) =~= s);
    }
}

/// Reads an unsigned 32-bit number, as `u32::from_str` does.
pub fn parse_u32(s: &str) -> (r: Option<u32>)
    requires
        s.is_ascii(),
    ensures
        r matches Some(v) ==> decimal_value(s@, false) == Some(v as int),
        r is None ==> !(decimal_value(s@, false) matches Some(v) && 0 <= v <= u32::MAX),
{
    broadcast use vstd::string::is_ascii_spec_bytes;

    let from: usize = if ascii_len(s) > 0 && s.get_ascii(0) == 43 { 1 } else { 0 };
    assert(from == 1 ==> s@.drop_first() =~= s@.subrange(1, s@.len() as int));
    assert(from == 0 ==> s@ =~= s@.subrange(0, s@.len() as int));
    match read_digits(s, from, u32::MAX as u64 + 1) {
        Some(v) => Some(v as u32),
        None => None,
    }
}

/// Reads a signed 32-bit number, as `i32::from_str` does.
pub fn parse_i32(s: &str) -> (r: Option<i32>)
    requires
        s.is_ascii(),
    ensures
        r matches Some(v) ==> decimal_value(s@, true) == Some(v as int),
        r is None ==> !(decimal_value(s@, true) matches Some(v) && i32::MIN <= v <= i32::MAX),
{
    broadcast use vstd::string::is_ascii_spec_bytes;

    let n = ascii_len(s);
    let negative = n > 0 && s.get_ascii(0) == 45;
    let from: usize = if n > 0 && (s.get_ascii(0) == 43 || negative) { 1 } else { 0 };
    assert(from == 1 ==> s@.drop_first() =~= s@.subrange(1, s@.len() as int));
    assert(from == 0 ==> s@ =~= s@.subrange(0, s@.len() as int));
    if negative {
        match read_digits(s, from, 2147483649) {
            Some(v) => Some((0 - v as i64) as i32),
            None => None,
        }
    } else {
        match read_digits(s, from, 2147483648) {
            Some(v) => Some(v as i32),
            None => None,
        }
    }
}

/// Reads a number field, or gives an invalid-data error naming the field
/// and its text.
pub fn parse_or_invalid(s: &str, fieldname: &str) -> (r: Result<u32, RailError>)
    requires
        s.is_ascii(),
    ensures
        r matches Ok(v) ==> decimal_value(s@, false) == Some(v as int),
        r matches Err(e) ==> !(decimal_value(s@, false) matches Some(v) && 0 <= v <= u32::MAX)
            && e.kind == ErrorKind::InvalidData && e.line == 0
            && (e.reason matches ErrorReason::BadField { field, text } && field@ == fieldname@ && text@ == s@),
{
    match parse_u32(s) {
        Some(v) => Ok(v),
        None => Err(invalid(ErrorReason::BadField { field: fieldname.to_owned(), text: s.to_owned() })),
    }
}

} // verus!
