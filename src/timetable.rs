//! Clock times, stops, services and the timetable.
use vstd::prelude::*;
use crate::stations::{StationId, StationList, Station, first_tiploc};
use crate::record_parsing::{ascii_len, str_equal, invalid, RailError, ErrorKind, ErrorReason};
use crate::lines::{chunk_at, chunk_end, line_number, line_of_index};

verus! {

/// A service's index in the timetable.
pub type ServiceId = u32;

/// Seconds in one day.
pub const DAY_SECS: u32 = 86400;

/// A clock time, held as seconds since 00:00 and always below one day.
#[derive(Clone, Copy, Debug, PartialEq, Eq, Structural)]
pub struct RailTime {
    secs: u32,
}

/// The value of an ASCII decimal digit.
pub open spec fn digit_value(c: char) -> int {
    c as int - '0' as int
}

/// Whether a character is an ASCII digit.
pub open spec fn is_digit(c: char) -> bool {
    '0' <= c && c <= '9'
}

/// The ASCII digit for a value below ten.
pub open spec fn digit_char(d: int) -> char {
    ((d + '0' as int) as u32) as char
}

/// The seconds that a four-digit `HHMM` text stands for, taken modulo one day.
/// The text may carry one trailing character other than a newline.
pub open spec fn parse_24h(s: Seq<char>) -> Option<nat> {
    if (s.len() == 4 || (s.len() == 5 && s[4] != '\n')) && is_digit(s[0]) && is_digit(s[1])
        && is_digit(s[2]) && is_digit(s[3]) {
        let hours = 10 * digit_value(s[0]) + digit_value(s[1]);
        let mins = 10 * digit_value(s[2]) + digit_value(s[3]);
        Some(((hours * 3600 + mins * 60) % 86400) as nat)
    } else {
        None
    }
}

/// The four-digit 24-hour text of a clock time given in seconds.
pub open spec fn text_24h(secs: nat) -> Seq<char> {
    let hours = secs as int / 3600;
    let mins = (secs as int % 3600) / 60;
    seq![digit_char(hours / 10), digit_char(hours % 10), digit_char(mins / 10), digit_char(mins % 10)]
}

/// Seconds from clock time `a` to clock time `b`, wrapping into the next day
/// when `b` is earlier than `a`.
pub open spec fn secs_until(a: nat, b: nat) -> nat {
    if a > b {
        (b + 86400 - a) as nat
    } else {
        (b - a) as nat
    }
}

impl View for RailTime {
    type V = nat;

    closed spec fn view(&self) -> nat {
        (self.secs % 86400) as nat
    }
}

/// Every clock time lies within one day.
pub broadcast proof fn lemma_railtime_within_day(t: RailTime)
    ensures
        #[trigger] t@ < 86400,
{
}

impl RailTime {
    /// The clock time `secs` seconds after 00:00, modulo one day.
    pub closed spec fn spec_at(secs: nat) -> RailTime {
        RailTime { secs: (secs % 86400) as u32 }
    }

    #[verifier::type_invariant]
    spec fn inv(&self) -> bool {
        self.secs < DAY_SECS
    }

    /// The clock time `hours:mins`, taken modulo one day.
    pub fn new(hours: u32, mins: u32) -> (r: Self)
        ensures
            r@ == (hours as int * 3600 + mins as int * 60) % 86400,
            r == RailTime::spec_at(r@),
    {
        let total: u64 = hours as u64 * 3600 + mins as u64 * 60;
        RailTime { secs: (total % (DAY_SECS as u64)) as u32 }
    }

    /// The clock time that many seconds after 00:00, taken modulo one day.
    pub fn from_secs(secs: u32) -> (r: Self)
        ensures
            r@ == secs as int % 86400,
    {
        RailTime { secs: secs % DAY_SECS }
    }

    /// Seconds since 00:00.
    pub fn secs(&self) -> (r: u32)
        ensures
            r as nat == self@,
    {
        proof {
            use_type_invariant(self);
        }
        self.secs
    }

    /// Reads a four-digit `HHMM` time, which may be followed by one more
    /// character other than a newline.
    pub fn from_24h(timestr: &str) -> (r: Option<Self>)
        ensures
            r matches Some(t) ==> parse_24h(timestr@) == Some(t@),
            r is None ==> parse_24h(timestr@) is None,
    {
        let n = timestr.unicode_len();
        if n != 4 && n != 5 {
            return None;
        }
        if n == 5 && timestr.get_char(4) == '\n' {
            return None;
        }
        let c0 = timestr.get_char(0);
        let c1 = timestr.get_char(1);
        let c2 = timestr.get_char(2);
        let c3 = timestr.get_char(3);
        if !('0' <= c0 && c0 <= '9' && '0' <= c1 && c1 <= '9' && '0' <= c2 && c2 <= '9' && '0'
            <= c3 && c3 <= '9') {
            return None;
        }
        let hours: u32 = 10 * (c0 as u32 - '0' as u32) + (c1 as u32 - '0' as u32);
        let mins: u32 = 10 * (c2 as u32 - '0' as u32) + (c3 as u32 - '0' as u32);
        Some(RailTime::new(hours, mins))
    }

    /// The four-digit 24-hour text of this time.
    pub fn to_24h(&self) -> (r: String)
        ensures
            r@ == text_24h(self@),
    {
        proof {
            use_type_invariant(self);
        }
        let hours = self.secs / 3600;
        let mins = (self.secs % 3600) / 60;
        let mut s = String::new();
        s.append(digit_text(hours / 10));
        s.append(digit_text(hours % 10));
        s.append(digit_text(mins / 10));
        s.append(digit_text(mins % 10));
        s
    }

    /// Seconds from this time until `other`, wrapping into the next day when
    /// `other` is earlier.
    pub fn timetil(&self, other: &RailTime) -> (r: u32)
        ensures
            r == secs_until(self@, other@),
            r < 86400,
    {
        proof {
            use_type_invariant(self);
            use_type_invariant(other);
        }
        if self.secs > other.secs {
            other.secs + DAY_SECS - self.secs
        } else {
            other.secs - self.secs
        }
    }

    /// This time moved `secs` seconds later, modulo one day.
    pub fn add(&self, secs: u32) -> (r: Self)
        ensures
            r@ == (self@ + secs) % 86400,
            r == RailTime::spec_at(r@),
    {
        proof {
            use_type_invariant(self);
        }
        RailTime { secs: ((self.secs as u64 + secs as u64) % (DAY_SECS as u64)) as u32 }
    }

    /// This time moved `secs` seconds earlier, modulo one day.
    pub fn sub(&self, secs: u32) -> (r: Self)
        ensures
            r@ == (self@ - secs) % 86400,
    {
        proof {
            use_type_invariant(self);
        }
        let s = secs % DAY_SECS;
        let t = if s > self.secs {
            self.secs + DAY_SECS - s
        } else {
            self.secs - s
        };
        proof {
            assert((self@ - secs) % 86400 == (self@ - s) % 86400) by (nonlinear_arith)
                requires s == secs % 86400, self@ < 86400;
        }
        RailTime { secs: t }
    }
}

/// Whether `s` is a valid 24-hour `HHMM` time: four digits, hours below 24
/// and minutes below 60.
pub open spec fn is_valid_24h(s: Seq<char>) -> bool {
    &&& s.len() == 4
    &&& is_digit(s[0]) && is_digit(s[1]) && is_digit(s[2]) && is_digit(s[3])
    &&& 10 * digit_value(s[0]) + digit_value(s[1]) < 24
    &&& 10 * digit_value(s[2]) + digit_value(s[3]) < 60
}

/// Reading a valid `HHMM` time and writing it back gives the same text.
pub proof fn lemma_24h_round_trip(s: Seq<char>)
    requires
        is_valid_24h(s),
    ensures
        parse_24h(s) matches Some(t) && text_24h(t) == s,
{
    let h = 10 * digit_value(s[0]) + digit_value(s[1]);
    let m = 10 * digit_value(s[2]) + digit_value(s[3]);
    let t = h * 3600 + m * 60;
    assert(t < 86400);
    assert(t % 86400 == t);
    assert(t / 3600 == h) by (nonlinear_arith)
        requires t == h * 3600 + m * 60, 0 <= m < 60, 0 <= h;
    assert(t % 3600 == m * 60) by (nonlinear_arith)
        requires t == h * 3600 + m * 60, 0 <= m < 60, 0 <= h;
    assert((m * 60) / 60 == m) by (nonlinear_arith);
    let text = text_24h(t as nat);
    assert(text[0] == s[0] && text[1] == s[1] && text[2] == s[2] && text[3] == s[3]);
    assert(text =~= s);
}

/// Moving a clock time `k` seconds on, for `k` below a day, leaves exactly
/// `k` seconds between the two.
pub proof fn lemma_timetil_add(t: RailTime, k: u32)
    requires
        k < 86400,
    ensures
        secs_until(t@, ((t@ + k) % 86400) as nat) == k,
{
    lemma_railtime_within_day(t);
    if t@ + k >= 86400 {
        assert((t@ + k) % 86400 == t@ + k - 86400);
    } else {
        assert((t@ + k) % 86400 == t@ + k);
    }
}

/// A call of a service at a station. First and last stops carry one time as
/// both arrival and departure.
#[derive(Debug, Clone, Copy)]
pub struct Stop {
    pub station: StationId,
    pub arrival: RailTime,
    pub departure: RailTime,
}

impl Stop {
    /// A stop with arrival and departure given as `HHMM` texts.
    pub fn simple(station: StationId, arrival: &str, departure: &str) -> (r: Self)
        requires
            parse_24h(arrival@) is Some,
            parse_24h(departure@) is Some,
        ensures
            r.station == station,
            Some(r.arrival@) == parse_24h(arrival@),
            Some(r.departure@) == parse_24h(departure@),
    {
        let a = RailTime::from_24h(arrival);
        let d = RailTime::from_24h(departure);
        Stop { station, arrival: a.unwrap(), departure: d.unwrap() }
    }
}

/// A train service: its UID and its stops in order.
#[derive(Debug)]
pub struct Service {
    pub id: ServiceId,
    pub train_uid: String,
    pub stops: Vec<Stop>,
}

/// Whether every stop of the services is at a station below `n`.
pub open spec fn stops_in_range(ss: Seq<Service>, n: int) -> bool {
    forall|j: int, k: int| 0 <= j < ss.len() && 0 <= k < ss[j].stops@.len() ==> (#[trigger] ss[j].stops@[k]).station < n
}

/// A time field of a schedule record; a field that is not a time is an error.
fn time_field(text: &str, fieldname: &str) -> (r: Result<RailTime, RailError>)
    ensures
        r matches Ok(t) ==> parse_24h(text@) == Some(t@),
        r matches Err(e) ==> parse_24h(text@) is None && e.kind == ErrorKind::InvalidData,
{
    match RailTime::from_24h(text) {
        Some(t) => Ok(t),
        None => Err(invalid(ErrorReason::BadField { field: fieldname.to_owned(), text: text.to_owned() })),
    }
}

/// A stop as the schedule feed gives it: station, arrival and departure
/// in seconds.
pub type StopModel = (int, nat, nat);

/// A stop's model.
pub open spec fn stop_model(s: Stop) -> StopModel {
    (s.station as int, s.arrival@, s.departure@)
}

/// The models of the stops, in order.
pub open spec fn stops_model(v: Seq<Stop>) -> Seq<StopModel> {
    v.map_values(|s: Stop| stop_model(s))
}

/// A service as the schedule feed gives it: its UID and its stops.
pub open spec fn service_model(svc: Service) -> (Seq<char>, Seq<StopModel>) {
    (svc.train_uid@, stops_model(svc.stops@))
}

/// The models of the services, in order.
pub open spec fn services_model(v: Seq<Service>) -> Seq<(Seq<char>, Seq<StopModel>)> {
    v.map_values(|svc: Service| service_model(svc))
}

/// What reading one service from the schedule feed gives.
pub enum ServiceRead {
    /// The feed ended before a `BS` record.
    NoService,
    /// A service: its UID and stops.
    Found(Seq<char>, Seq<StopModel>),
    /// A record too short for its fields, or a time field that is not a
    /// time, in the chunk starting at the given index.
    BadRecord(int),
    /// The feed ended inside a service, at the chunk starting at the given
    /// index.
    Unterminated(int),
}

/// The trimmed field of `len` characters at `offset` of a record.
pub open spec fn field(c: Seq<char>, offset: int, len: int) -> Seq<char> {
    crate::record_parsing::trimmed(c.subrange(offset, offset + len))
}

/// Reading one service from index `p` of the schedule feed `s`, with UID,
/// stops and whether a `BS` record was read so far; also the index where
/// reading stops. Each chunk is a line with its newline. A chunk of two
/// characters or fewer ends the feed. `BS` sets the UID; `LO`, `LI` and `LT`
/// add a stop at the first station with the record's TIPLOC, if any; an `LI`
/// with a pass time adds none; `LT` ends the service. Other chunks are
/// skipped.
pub open spec fn scan_service(st: Seq<Station>, s: Seq<char>, p: int, uid: Seq<char>, stops: Seq<StopModel>, has: bool) -> (ServiceRead, int)
    decreases s.len() - p,
{
    if p < 0 || p > s.len() {
        (ServiceRead::BadRecord(p), p)
    } else {
        let end = chunk_end(s, p);
        let c = s.subrange(p, end);
        if c.len() <= 2 || end <= p || end > s.len() {
            (if has { ServiceRead::Unterminated(p) } else { ServiceRead::NoService }, end)
        } else {
            let kind = c.subrange(0, 2);
            if kind == seq!['B', 'S'] {
                if c.len() < 53 {
                    (ServiceRead::BadRecord(p), end)
                } else {
                    scan_service(st, s, end, field(c, 3, 6), stops, true)
                }
            } else if kind == seq!['L', 'O'] {
                if c.len() < 22 {
                    (ServiceRead::BadRecord(p), end)
                } else {
                    match first_tiploc(st, field(c, 2, 7)) {
                        None => scan_service(st, s, end, uid, stops, has),
                        Some(i) => match parse_24h(field(c, 15, 4)) {
                            None => (ServiceRead::BadRecord(p), end),
                            Some(d) => scan_service(st, s, end, uid, stops.push((i, d, d)), has),
                        },
                    }
                }
            } else if kind == seq!['L', 'I'] {
                if c.len() < 36 {
                    (ServiceRead::BadRecord(p), end)
                } else {
                    match first_tiploc(st, field(c, 2, 7)) {
                        None => scan_service(st, s, end, uid, stops, has),
                        Some(i) => if field(c, 20, 5).len() > 0 {
                            scan_service(st, s, end, uid, stops, has)
                        } else {
                            match (parse_24h(field(c, 25, 4)), parse_24h(field(c, 29, 4))) {
                                (Some(a), Some(d)) => scan_service(st, s, end, uid, stops.push((i, a, d)), has),
                                _ => (ServiceRead::BadRecord(p), end),
                            }
                        },
                    }
                }
            } else if kind == seq!['L', 'T'] {
                if c.len() < 22 {
                    (ServiceRead::BadRecord(p), end)
                } else {
                    match first_tiploc(st, field(c, 2, 7)) {
                        None => (ServiceRead::Found(uid, stops), end),
                        Some(i) => match parse_24h(field(c, 15, 4)) {
                            None => (ServiceRead::BadRecord(p), end),
                            Some(a) => (ServiceRead::Found(uid, stops.push((i, a, a))), end),
                        },
                    }
                }
            } else {
                scan_service(st, s, end, uid, stops, has)
            }
        }
    }
}

/// Reading all services from index `p` of the schedule feed, after the
/// services `acc`: `None` where a read fails or the ids run out.
pub open spec fn scan_timetable(st: Seq<Station>, s: Seq<char>, p: int, acc: Seq<(Seq<char>, Seq<StopModel>)>) -> Option<Seq<(Seq<char>, Seq<StopModel>)>>
    decreases s.len() - p,
{
    if p < 0 || p > s.len() {
        None
    } else {
        let (out, end) = scan_service(st, s, p, Seq::empty(), Seq::empty(), false);
        match out {
            ServiceRead::NoService => Some(acc),
            ServiceRead::Found(uid, stops) => if acc.len() > u32::MAX || end <= p || end > s.len() {
                None
            } else {
                scan_timetable(st, s, end, acc.push((uid, stops)))
            },
            _ => None,
        }
    }
}

/// The read that makes reading the schedule feed from index `p` fail: a bad
/// record or an unterminated service, or the service found when the ids have
/// run out; `None` where reading succeeds.
pub open spec fn timetable_fault(st: Seq<Station>, s: Seq<char>, p: int, acc: Seq<(Seq<char>, Seq<StopModel>)>) -> Option<ServiceRead>
    decreases s.len() - p,
{
    if p < 0 || p > s.len() {
        Some(ServiceRead::BadRecord(p))
    } else {
        let (out, end) = scan_service(st, s, p, Seq::empty(), Seq::empty(), false);
        match out {
            ServiceRead::NoService => None,
            ServiceRead::Found(uid, stops) => if acc.len() > u32::MAX || end <= p || end > s.len() {
                Some(out)
            } else {
                timetable_fault(st, s, end, acc.push((uid, stops)))
            },
            _ => Some(out),
        }
    }
}

/// Whether `e` is the error that the failing read `fault` gives.
pub open spec fn fault_error(s: Seq<char>, fault: ServiceRead, e: RailError) -> bool {
    match fault {
        ServiceRead::BadRecord(at) => e.kind == ErrorKind::InvalidData && e.line == line_of_index(s, at),
        ServiceRead::Unterminated(at) => e.kind == ErrorKind::UnexpectedEof && e.line == line_of_index(s, at)
            && e.reason == ErrorReason::ServiceNotTerminated,
        ServiceRead::Found(_, _) => e.kind == ErrorKind::InvalidData && e.reason == ErrorReason::TooManyServices,
        ServiceRead::NoService => false,
    }
}

/// An error given the line of `text` that index `at` falls on; a success
/// passes unchanged.
fn at_line<T>(r: Result<T, RailError>, text: &str, at: usize) -> (out: Result<T, RailError>)
    requires
        text.is_ascii(),
        at <= text@.len(),
    ensures
        r is Ok ==> out == r,
        r matches Err(e) ==> (out matches Err(o) && o.kind == e.kind && o.reason == e.reason
            && o.line == line_of_index(text@, at as int)),
{
    match r {
        Ok(x) => Ok(x),
        Err(e) => Err(RailError { kind: e.kind, line: line_number(text, at), reason: e.reason }),
    }
}

/// Reads the field of `len` characters at `offset` of a record known to reach it.
fn field_of(line: &str, offset: usize, len: usize) -> (r: &str)
    requires
        line.is_ascii(),
        offset + len <= line@.len(),
    ensures
        r@ == field(line@, offset as int, len as int),
        r.is_ascii(),
{
    let n = ascii_len(line);
    assert(offset + len <= n);
    crate::record_parsing::trim_ascii(line.substring_ascii(offset, offset + len))
}

impl Service {
    /// Reads the next service of the schedule feed from index `pos` of
    /// `text`, as `scan_service` describes, and moves `pos` past what it read.
    pub fn read_service_entry(stations: &StationList, text: &str, pos: &mut usize) -> (r: Result<Option<Service>, RailError>)
        requires
            text.is_ascii(),
            *old(pos) <= text@.len(),
            stations.wf(),
        ensures
            *old(pos) <= *final(pos) <= text@.len(),
            ({
                let (out, end) = scan_service(stations@, text@, *old(pos) as int, Seq::empty(), Seq::empty(), false);
                &&& *final(pos) == end
                &&& match r {
                    Ok(None) => out == ServiceRead::NoService,
                    Ok(Some(svc)) => out == ServiceRead::Found(svc.train_uid@, stops_model(svc.stops@)),
                    Err(e) => match out {
                        ServiceRead::BadRecord(at) => e.kind == ErrorKind::InvalidData && e.line == line_of_index(text@, at),
                        ServiceRead::Unterminated(at) => e.kind == ErrorKind::UnexpectedEof && e.line == line_of_index(text@, at)
                            && e.reason == ErrorReason::ServiceNotTerminated,
                        _ => false,
                    },
                }
            }),
            r matches Ok(Some(svc)) ==> *old(pos) < *final(pos) && svc.id == 0 && stops_in_range(seq![svc], stations@.len() as int),
    {
        proof {
            reveal_strlit("BS");
            reveal_strlit("LO");
            reveal_strlit("LI");
            reveal_strlit("LT");
            assert("BS"@ =~= seq!['B', 'S']);
            assert("LO"@ =~= seq!['L', 'O']);
            assert("LI"@ =~= seq!['L', 'I']);
            assert("LT"@ =~= seq!['L', 'T']);
        }
        let mut service = Service { id: 0, train_uid: String::new(), stops: Vec::new() };
        let mut has_record = false;
        let n = ascii_len(text);
        let ghost start = *pos;
        let ghost st = stations@;
        let ghost s = text@;
        assert(stops_model(service.stops@) =~= Seq::<StopModel>::empty());
        loop
            invariant
                n == text@.len(),
                s == text@,
                st == stations@,
                text.is_ascii(),
                stations.wf(),
                start <= *pos <= n,
                start == *old(pos),
                service.id == 0,
                forall|k: int| 0 <= k < service.stops@.len() ==> (#[trigger] service.stops@[k]).station < stations@.len(),
                scan_service(st, s, start as int, Seq::empty(), Seq::empty(), false)
                    == scan_service(st, s, *pos as int, service.train_uid@, stops_model(service.stops@), has_record),
            decreases n - *pos,
        {
            let ghost here = *pos as int;
            let (line, next) = chunk_at(text, *pos);
            let len = ascii_len(line);
            let ghost uid0 = service.train_uid@;
            let ghost stops0 = stops_model(service.stops@);
            let ghost has0 = has_record;
            let at = *pos;
            if len <= 2 {
                *pos = next;
                if has_record {
                    return Err(RailError { kind: ErrorKind::UnexpectedEof, line: line_number(text, at), reason: ErrorReason::ServiceNotTerminated });
                } else {
                    return Ok(None);
                }
            }
            *pos = next;
            let kind = line.substring_ascii(0, 2);
            assert(line@ == s.subrange(here, next as int));
            assert(kind@ == line@.subrange(0, 2));
            proof {
                reveal_strlit("BS");
                reveal_strlit("LO");
                reveal_strlit("LI");
                reveal_strlit("LT");
                assert("BS"@ =~= seq!['B', 'S']);
                assert("LO"@ =~= seq!['L', 'O']);
                assert("LI"@ =~= seq!['L', 'I']);
                assert("LT"@ =~= seq!['L', 'T']);
            }
            if str_equal(kind, "BS") {
                if len < 53 {
                    return at_line(Err(invalid(ErrorReason::RecordTooShort { field: "power_type".to_owned(), len, needed: 53 })), text, at);
                }
                service.train_uid = field_of(line, 3, 6).to_owned();
                has_record = true;
            } else if str_equal(kind, "LO") {
                if len < 22 {
                    return at_line(Err(invalid(ErrorReason::RecordTooShort { field: "platform".to_owned(), len, needed: 22 })), text, at);
                }
                let tiploc = field_of(line, 2, 7);
                let dep = field_of(line, 15, 4);
                if let Some(station) = stations.get_by_tiploc(tiploc) {
                    let dep_time = at_line(time_field(dep, "public_departure"), text, at)?;
                    let id = station.id;
                    let ghost before = service.stops@;
                    service.stops.push(Stop { station: id, arrival: dep_time, departure: dep_time });
                    assert(stops_model(service.stops@) =~= stops_model(before).push((id as int, dep_time@, dep_time@)));
                }
            } else if str_equal(kind, "LI") {
                if len < 36 {
                    return at_line(Err(invalid(ErrorReason::RecordTooShort { field: "platform".to_owned(), len, needed: 36 })), text, at);
                }
                let tiploc = field_of(line, 2, 7);
                let pass = field_of(line, 20, 5);
                let arr = field_of(line, 25, 4);
                let dep = field_of(line, 29, 4);
                if let Some(station) = stations.get_by_tiploc(tiploc) {
                    let id = station.id;
                    if ascii_len(pass) == 0 {
                        let arr_time = at_line(time_field(arr, "public_arrival"), text, at)?;
                        let dep_time = at_line(time_field(dep, "public_departure"), text, at)?;
                        let ghost before = service.stops@;
                        service.stops.push(Stop { station: id, arrival: arr_time, departure: dep_time });
                        assert(stops_model(service.stops@) =~= stops_model(before).push((id as int, arr_time@, dep_time@)));
                    }
                }
            } else if str_equal(kind, "LT") {
                if len < 22 {
                    return at_line(Err(invalid(ErrorReason::RecordTooShort { field: "platform".to_owned(), len, needed: 22 })), text, at);
                }
                let tiploc = field_of(line, 2, 7);
                let arr = field_of(line, 15, 4);
                if let Some(station) = stations.get_by_tiploc(tiploc) {
                    let arr_time = at_line(time_field(arr, "public_arrival"), text, at)?;
                    let id = station.id;
                    let ghost before = service.stops@;
                    service.stops.push(Stop { station: id, arrival: arr_time, departure: arr_time });
                    assert(stops_model(service.stops@) =~= stops_model(before).push((id as int, arr_time@, arr_time@)));
                }
                return Ok(Some(service));
            }
        }
    }
}

/// The services in id order.
pub struct Timetable {
    pub services: Vec<Service>,
}

impl Timetable {
    /// Reads the schedule feed, as `scan_timetable` describes: its services
    /// in order, each given its index as id.
    pub fn read_mca_file(stations: &StationList, text: &str) -> (r: Result<Self, RailError>)
        requires
            text.is_ascii(),
            stations.wf(),
        ensures
            r matches Ok(tt) ==> scan_timetable(stations@, text@, 0, Seq::empty()) == Some(services_model(tt.services@)),
            r is Err ==> scan_timetable(stations@, text@, 0, Seq::empty()) is None,
            r matches Err(e) ==> (timetable_fault(stations@, text@, 0, Seq::empty()) matches Some(fault)
                && fault_error(text@, fault, e)),
            r is Ok ==> timetable_fault(stations@, text@, 0, Seq::empty()) is None,
            r matches Ok(tt) ==> stops_in_range(tt.services@, stations@.len() as int)
                && forall|i: int| 0 <= i < tt.services@.len() ==> (#[trigger] tt.services@[i]).id == i,
    {
        let mut services: Vec<Service> = Vec::new();
        let mut pos: usize = 0;
        let n = ascii_len(text);
        assert(services_model(services@) =~= Seq::<(Seq<char>, Seq<StopModel>)>::empty());
        loop
            invariant
                n == text@.len(),
                text.is_ascii(),
                stations.wf(),
                pos <= n,
                stops_in_range(services@, stations@.len() as int),
                forall|i: int| 0 <= i < services@.len() ==> (#[trigger] services@[i]).id == i,
                scan_timetable(stations@, text@, 0, Seq::empty()) == scan_timetable(stations@, text@, pos as int, services_model(services@)),
                timetable_fault(stations@, text@, 0, Seq::empty()) == timetable_fault(stations@, text@, pos as int, services_model(services@)),
            decreases n - pos,
        {
            let ghost here = pos as int;
            match Service::read_service_entry(stations, text, &mut pos) {
                Err(e) => {
                    return Err(e);
                },
                Ok(Some(service)) => {
                    let ghost orig = service;
                    assert(stops_in_range(seq![orig], stations@.len() as int));
                    assert(seq![orig][0] == orig);
                    let next_id = services.len();
                    if next_id > u32::MAX as usize {
                        return Err(invalid(ErrorReason::TooManyServices));
                    }
                    let mut service = service;
                    service.id = next_id as u32;
                    let ghost before = services@;
                    services.push(service);
                    assert(services_model(services@) =~= services_model(before).push(service_model(orig)));
                    assert forall|j: int, k: int| 0 <= j < services@.len() && 0 <= k < services@[j].stops@.len()
                        implies (#[trigger] services@[j].stops@[k]).station < stations@.len() by {
                        if j < before.len() {
                            assert(services@[j] == before[j]);
                        } else {
                            assert(orig.stops@[k] == services@[j].stops@[k]);
                        }
                    }
                },
                Ok(None) => {
                    return Ok(Timetable { services });
                },
            }
        }
    }
}

/// The one-character text of an ASCII digit.
fn digit_text(d: u32) -> (r: &'static str)
    requires
        d < 10,
    ensures
        r@ == seq![digit_char(d as int)],
{
    let digits = "0123456789";
    proof {
        reveal_strlit("0123456789");
    }
    digits.substring_ascii(d as usize, d as usize + 1)
}

} // verus!
