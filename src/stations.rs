//! The station registry: stations indexed densely by id, with lookups by
//! CRS code, TIPLOC and name.
use vstd::prelude::*;
use std::collections::{HashMap, HashSet};
use crate::record_parsing::{str_equal, str_contains, contains_text, extract_record_field, record_field,
    parse_or_invalid, parse_i32, decimal_value, invalid, RailError, ErrorKind, ErrorReason};
use crate::lines::{line_at, lines_from, text_lines};
use crate::utils::append_err_context;

verus! {

broadcast use vstd::std_specs::hash::group_hash_axioms;

/// A station's index in the registry.
pub type StationId = usize;

/// One station: its codes, names, minimum interchange time and grid reference.
#[derive(Debug)]
pub struct Station {
    pub id: StationId,
    pub tiplocs: Vec<String>,
    pub crs_code: String,
    pub names: Vec<String>,
    pub min_change_time: u32,
    pub gref_east: i32,
    pub gref_north: i32,
}

/// The views of a list of texts.
pub open spec fn texts(v: Seq<String>) -> Seq<Seq<char>> {
    v.map_values(|s: String| s@)
}

/// The names of `b` that `a` lacks, appended to `a` in order, each once.
pub open spec fn union_texts(a: Seq<Seq<char>>, b: Seq<Seq<char>>) -> Seq<Seq<char>>
    decreases b.len(),
{
    if b.len() == 0 {
        a
    } else {
        let first = union_texts(a, b.drop_last());
        if first.contains(b.last()) {
            first
        } else {
            first.push(b.last())
        }
    }
}

/// Whether the fields of a station record parse: name at 5 (26 characters),
/// TIPLOC at 36 (7), CRS at 49 (3), grid east at 53 (4), grid north at 59 (4)
/// and minimum change time at 63 (2); the record reaches column 65.
pub open spec fn msn_record_ok(line: Seq<char>) -> bool {
    &&& line.len() >= 65
    &&& decimal_value(record_field(line, 63, 2).unwrap(), false) matches Some(v) && 0 <= v <= u32::MAX
    &&& decimal_value(record_field(line, 53, 4).unwrap(), true) matches Some(v) && i32::MIN <= v <= i32::MAX
    &&& decimal_value(record_field(line, 59, 4).unwrap(), true) matches Some(v) && i32::MIN <= v <= i32::MAX
}

impl Station {
    /// Reads a station (`A`) record of the station feed.
    pub fn from_msn_a_record(line: String) -> (r: Result<Self, RailError>)
        requires
            line.is_ascii(),
        ensures
            r is Ok <==> msn_record_ok(line@),
            r matches Ok(s) ==> {
                &&& s.id == 0
                &&& texts(s.tiplocs@) == seq![record_field(line@, 36, 7).unwrap()]
                &&& s.crs_code@ == record_field(line@, 49, 3).unwrap()
                &&& texts(s.names@) == seq![record_field(line@, 5, 26).unwrap()]
                &&& forall|k: int| 0 <= k < s.names@.len() ==> (#[trigger] s.names@[k]).is_ascii()
                &&& decimal_value(record_field(line@, 63, 2).unwrap(), false) == Some(s.min_change_time as int)
                &&& decimal_value(record_field(line@, 53, 4).unwrap(), true) == Some(s.gref_east as int)
                &&& decimal_value(record_field(line@, 59, 4).unwrap(), true) == Some(s.gref_north as int)
            },
            r matches Err(e) ==> e.kind == ErrorKind::InvalidData && e.line == 0,
    {
        let rec = line.as_str();
        let name = extract_record_field("name", rec, 5, 26)?;
        let _interchange = extract_record_field("cate_interchange", rec, 35, 1)?;
        let tiploc = extract_record_field("tiploc", rec, 36, 7)?;
        let _crs_ref = extract_record_field("crs_ref", rec, 43, 3)?;
        let crs = extract_record_field("crs", rec, 49, 3)?;
        let east = extract_record_field("os_gref_east", rec, 53, 4)?;
        let north = extract_record_field("os_gref_north", rec, 59, 4)?;
        let mct = extract_record_field("min_change_time", rec, 63, 2)?;
        let min_change_time = parse_or_invalid(mct, "min_change_time")?;
        let gref_east = match parse_i32(east) {
            Some(v) => v,
            None => return Err(invalid(ErrorReason::BadField { field: "os_gref_east".to_owned(), text: east.to_owned() })),
        };
        let gref_north = match parse_i32(north) {
            Some(v) => v,
            None => return Err(invalid(ErrorReason::BadField { field: "os_gref_north".to_owned(), text: north.to_owned() })),
        };
        let r = Station {
            id: 0,
            tiplocs: vec![tiploc.to_owned()],
            crs_code: crs.to_owned(),
            names: vec![name.to_owned()],
            min_change_time,
            gref_east,
            gref_north,
        };
        assert(texts(r.tiplocs@) =~= seq![record_field(line@, 36, 7).unwrap()]);
        assert(texts(r.names@) =~= seq![record_field(line@, 5, 26).unwrap()]);
        assert(r.names@.len() == 1 && r.names@[0]@ == name@);
        Ok(r)
    }

    /// Merges in another record of the same station: its names that this one
    /// lacks are appended in order, and its TIPLOCs after this one's. The
    /// grid reference and change time of this one are kept.
    pub fn update_from_other(&mut self, other: &Self)
        requires
            old(self).crs_code@ == other.crs_code@,
        ensures
            texts(final(self).names@) == union_texts(texts(old(self).names@), texts(other.names@)),
            final(self).names@.len() >= old(self).names@.len(),
            forall|k: int| 0 <= k < final(self).names@.len() ==> (#[trigger] final(self).names@[k]) == (if k < old(self).names@.len() {
                old(self).names@[k] } else { final(self).names@[k] }),
            forall|k: int| old(self).names@.len() <= k < final(self).names@.len() ==> other.names@.contains(#[trigger] final(self).names@[k]),
            final(self).tiplocs@ == old(self).tiplocs@ + other.tiplocs@,
            final(self).id == old(self).id,
            final(self).crs_code == old(self).crs_code,
            final(self).min_change_time == old(self).min_change_time,
            final(self).gref_east == old(self).gref_east,
            final(self).gref_north == old(self).gref_north,
    {
        let mut k: usize = 0;
        while k < other.names.len()
            invariant
                k <= other.names@.len(),
                texts(self.names@) == union_texts(texts(old(self).names@), texts(other.names@.subrange(0, k as int))),
                self.names@.len() >= old(self).names@.len(),
                forall|q: int| 0 <= q < old(self).names@.len() ==> (#[trigger] self.names@[q]) == old(self).names@[q],
                forall|q: int| old(self).names@.len() <= q < self.names@.len() ==> other.names@.contains(#[trigger] self.names@[q]),
                self.tiplocs == old(self).tiplocs,
                self.id == old(self).id,
                self.crs_code == old(self).crs_code,
                self.min_change_time == old(self).min_change_time,
                self.gref_east == old(self).gref_east,
                self.gref_north == old(self).gref_north,
            decreases other.names@.len() - k,
        {
            let ghost before = self.names@;
            let ghost sub = other.names@.subrange(0, k + 1);
            assert(texts(sub).drop_last() =~= texts(other.names@.subrange(0, k as int)));
            assert(texts(sub).last() == other.names@[k as int]@);
            let present = find_text(&self.names, other.names[k].as_str());
            proof {
                if texts(before).contains(other.names@[k as int]@) {
                    let w = choose|w: int| 0 <= w < texts(before).len() && texts(before)[w] == other.names@[k as int]@;
                    assert(before[w]@ == other.names@[k as int]@);
                }
                if present {
                    let w = choose|w: int| 0 <= w < before.len() && (#[trigger] before[w])@ == other.names@[k as int]@;
                    assert(texts(before)[w] == other.names@[k as int]@);
                }
            }
            if !present {
                self.names.push(other.names[k].clone());
                assert(texts(self.names@) =~= texts(before).push(other.names@[k as int]@));
            }
            k = k + 1;
        }
        assert(other.names@.subrange(0, other.names@.len() as int) =~= other.names@);
        let mut t: usize = 0;
        let ghost start = self.tiplocs@;
        let ghost names_now = self.names;
        while t < other.tiplocs.len()
            invariant
                t <= other.tiplocs@.len(),
                self.names == names_now,
                self.id == old(self).id,
                self.crs_code == old(self).crs_code,
                self.min_change_time == old(self).min_change_time,
                self.gref_east == old(self).gref_east,
                self.gref_north == old(self).gref_north,
                self.tiplocs@ == start + other.tiplocs@.subrange(0, t as int),
            decreases other.tiplocs@.len() - t,
        {
            self.tiplocs.push(other.tiplocs[t].clone());
            assert(self.tiplocs@ =~= start + other.tiplocs@.subrange(0, t + 1));
            t = t + 1;
        }
        assert(other.tiplocs@.subrange(0, other.tiplocs@.len() as int) =~= other.tiplocs@);
    }

    /// A station with one TIPLOC, one name and a CRS code, no interchange time
    /// and a zero grid reference.
    pub fn simple(tiploc: &str, name: &str, crs: &str) -> (r: Self)
        ensures
            r.id == 0,
            texts(r.tiplocs@) == seq![tiploc@],
            r.crs_code@ == crs@,
            texts(r.names@) == seq![name@],
            r.min_change_time == 0,
            r.gref_east == 0,
            r.gref_north == 0,
    {
        let r = Station {
            id: 0,
            tiplocs: vec![tiploc.to_owned()],
            crs_code: crs.to_owned(),
            names: vec![name.to_owned()],
            min_change_time: 0,
            gref_east: 0,
            gref_north: 0,
        };
        assert(texts(r.tiplocs@) =~= seq![tiploc@]);
        assert(texts(r.names@) =~= seq![name@]);
        r
    }
}

/// The index of the first station whose CRS code is `code`.
pub open spec fn first_crs(st: Seq<Station>, code: Seq<char>) -> Option<int>
    decreases st.len(),
{
    if st.len() == 0 {
        None
    } else {
        match first_crs(st.drop_last(), code) {
            Some(i) => Some(i),
            None => if st.last().crs_code@ == code {
                Some(st.len() - 1)
            } else {
                None
            },
        }
    }
}

proof fn lemma_first_crs_prefix(st: Seq<Station>, code: Seq<char>, k: int)
    requires
        0 <= k <= st.len(),
        first_crs(st.subrange(0, k), code) is Some,
    ensures
        first_crs(st, code) == first_crs(st.subrange(0, k), code),
    decreases st.len(),
{
    if k == st.len() {
        assert(st.subrange(0, k) =~= st);
    } else {
        assert(st.drop_last().subrange(0, k) =~= st.subrange(0, k));
        lemma_first_crs_prefix(st.drop_last(), code, k);
    }
}

/// The index of the first station that has `t` among its TIPLOCs.
pub open spec fn first_tiploc(st: Seq<Station>, t: Seq<char>) -> Option<int>
    decreases st.len(),
{
    if st.len() == 0 {
        None
    } else {
        match first_tiploc(st.drop_last(), t) {
            Some(i) => Some(i),
            None => if has_text(st.last().tiplocs@, t) {
                Some(st.len() - 1)
            } else {
                None
            },
        }
    }
}

proof fn lemma_first_tiploc_prefix(st: Seq<Station>, t: Seq<char>, k: int)
    requires
        0 <= k <= st.len(),
        first_tiploc(st.subrange(0, k), t) is Some,
    ensures
        first_tiploc(st, t) == first_tiploc(st.subrange(0, k), t),
    decreases st.len(),
{
    if k == st.len() {
        assert(st.subrange(0, k) =~= st);
    } else {
        assert(st.drop_last().subrange(0, k) =~= st.subrange(0, k));
        lemma_first_tiploc_prefix(st.drop_last(), t, k);
    }
}

/// What `first_tiploc` finds: a station with the TIPLOC, none before it.
proof fn lemma_first_tiploc(st: Seq<Station>, t: Seq<char>)
    ensures
        first_tiploc(st, t) matches Some(i) ==> 0 <= i < st.len() && has_text(st[i].tiplocs@, t)
            && forall|j: int| 0 <= j < i ==> !has_text(#[trigger] st[j].tiplocs@, t),
        first_tiploc(st, t) is None ==> forall|j: int| 0 <= j < st.len() ==> !has_text(#[trigger] st[j].tiplocs@, t),
    decreases st.len(),
{
    if st.len() > 0 {
        lemma_first_tiploc(st.drop_last(), t);
        assert forall|j: int| 0 <= j < st.len() - 1 implies #[trigger] st[j] == st.drop_last()[j] by {}
    }
}

/// Whether a code can be packed into an index key: at most seven ASCII
/// characters.
pub open spec fn packable(t: Seq<char>) -> bool {
    t.len() <= 7 && vstd::utf8::is_ascii_chars(t)
}

/// The bytes `b` as base-256 digits, the first the least significant.
pub open spec fn pack_digits(b: Seq<u8>) -> nat
    decreases b.len(),
{
    if b.len() == 0 {
        0
    } else {
        b[0] as nat + 256 * pack_digits(b.drop_first())
    }
}

/// The index key of a code (a TIPLOC or CRS code): its packed UTF-8 bytes
/// times eight, plus its length.
pub open spec fn code_key(t: Seq<char>) -> nat {
    pack_digits(vstd::utf8::encode_utf8(t)) * 8 + t.len()
}

/// 256 to the power `n`.
pub open spec fn pow256(n: nat) -> nat
    decreases n,
{
    if n == 0 {
        1
    } else {
        256 * pow256((n - 1) as nat)
    }
}

proof fn lemma_pack_bound(b: Seq<u8>)
    ensures
        pack_digits(b) < pow256(b.len()),
    decreases b.len(),
{
    if b.len() > 0 {
        let r = b.drop_first();
        lemma_pack_bound(r);
        let a = b[0] as nat;
        let x = pack_digits(r);
        let p = pow256(r.len());
        assert(a + 256 * x < 256 * p) by (nonlinear_arith)
            requires a < 256, x < p;
    }
}

proof fn lemma_pack_injective(b1: Seq<u8>, b2: Seq<u8>)
    requires
        b1.len() == b2.len(),
        pack_digits(b1) == pack_digits(b2),
    ensures
        b1 == b2,
    decreases b1.len(),
{
    if b1.len() > 0 {
        let (r1, r2) = (b1.drop_first(), b2.drop_first());
        let (a1, a2) = (b1[0] as nat, b2[0] as nat);
        let (x1, x2) = (pack_digits(r1), pack_digits(r2));
        assert(a1 == a2 && x1 == x2) by (nonlinear_arith)
            requires a1 < 256, a2 < 256, a1 + 256 * x1 == a2 + 256 * x2;
        lemma_pack_injective(r1, r2);
        assert(b1 =~= seq![b1[0]] + r1);
        assert(b2 =~= seq![b2[0]] + r2);
    } else {
        assert(b1 =~= b2);
    }
}

/// Two packable codes with one key are the same.
proof fn lemma_key_injective(t1: Seq<char>, t2: Seq<char>)
    requires
        packable(t1),
        packable(t2),
        code_key(t1) == code_key(t2),
    ensures
        t1 == t2,
{
    let (e1, e2) = (vstd::utf8::encode_utf8(t1), vstd::utf8::encode_utf8(t2));
    let (k1, k2) = (pack_digits(e1), pack_digits(e2));
    let (l1, l2) = (t1.len(), t2.len());
    assert(k1 == k2 && l1 == l2) by (nonlinear_arith)
        requires l1 < 8, l2 < 8, k1 * 8 + l1 == k2 * 8 + l2;
    vstd::utf8::is_ascii_chars_encode_utf8(t1);
    vstd::utf8::is_ascii_chars_encode_utf8(t2);
    lemma_pack_injective(e1, e2);
    vstd::utf8::encode_utf8_decode_utf8(t1);
    vstd::utf8::encode_utf8_decode_utf8(t2);
}

/// The index key of a code, where it is packable.
fn code_key_of(t: &str) -> (r: Option<u64>)
    ensures
        r matches Some(k) ==> packable(t@) && k as nat == code_key(t@),
        r is None ==> !packable(t@),
{
    if !t.is_ascii() {
        return None;
    }
    let n = crate::record_parsing::ascii_len(t);
    if n > 7 {
        return None;
    }
    let bytes = t.as_bytes();
    proof {
        lemma_pow256_seven();
        vstd::utf8::is_ascii_chars_encode_utf8(t@);
    }
    let mut v: u64 = 0;
    let mut j: usize = n;
    while j > 0
        invariant
            n == t@.len(),
            n <= 7,
            bytes@ == vstd::utf8::encode_utf8(t@),
            bytes@.len() == n,
            j <= n,
            v as nat == pack_digits(bytes@.subrange(j as int, n as int)),
            pow256(7) == 72057594037927936,
        decreases j,
    {
        j = j - 1;
        let c = bytes[j];
        proof {
            let sub = bytes@.subrange(j as int, n as int);
            assert(sub.drop_first() =~= bytes@.subrange(j + 1, n as int));
            assert(sub[0] == c);
            lemma_pack_bound(sub);
            lemma_pow256_mono(sub.len(), 7);
        }
        v = (c as u64) + 256 * v;
    }
    assert(bytes@.subrange(0, n as int) =~= bytes@);
    proof {
        lemma_pack_bound(bytes@);
        lemma_pow256_mono(n as nat, 7);
    }
    Some(v * 8 + n as u64)
}

/// The key of a packable code fits in 64 bits.
proof fn lemma_key_bound(t: Seq<char>)
    requires
        packable(t),
    ensures
        code_key(t) < 0x1000_0000_0000_0000,
{
    let e = vstd::utf8::encode_utf8(t);
    vstd::utf8::is_ascii_chars_encode_utf8(t);
    lemma_pack_bound(e);
    lemma_pow256_mono(e.len(), 7);
    lemma_pow256_seven();
}

proof fn lemma_pow256_seven()
    ensures
        pow256(7) == 72057594037927936,
{
    reveal_with_fuel(pow256, 8);
}

proof fn lemma_pow256_mono(a: nat, b: nat)
    requires
        a <= b,
    ensures
        pow256(a) <= pow256(b),
    decreases b,
{
    if a < b {
        lemma_pow256_mono(a, (b - 1) as nat);
    }
}

/// Whether the map takes the key of each packable TIPLOC to the first
/// station that has it, and holds no key for a TIPLOC that no station has.
pub open spec fn indexes_tiplocs(m: Map<u64, usize>, st: Seq<Station>) -> bool {
    forall|t: Seq<char>| packable(t) ==> (m.contains_key(#[trigger] code_key(t) as u64) <==> first_tiploc(st, t) is Some)
        && (m.contains_key(code_key(t) as u64) ==> m[code_key(t) as u64] as int == first_tiploc(st, t).unwrap())
}

/// The index from TIPLOC keys to the first station with each TIPLOC.
fn build_tiploc_index(st: &Vec<Station>) -> (r: HashMap<u64, usize>)
    ensures
        indexes_tiplocs(r@, st@),
{
    let mut m: HashMap<u64, usize> = HashMap::new();
    let mut i: usize = 0;
    assert(st@.subrange(0, 0) =~= Seq::<Station>::empty());
    while i < st.len()
        invariant
            i <= st@.len(),
            indexes_tiplocs(m@, st@.subrange(0, i as int)),
        decreases st@.len() - i,
    {
        let tiplocs = &st[i].tiplocs;
        let ghost before = st@.subrange(0, i as int);
        let mut j: usize = 0;
        while j < tiplocs.len()
            invariant
                i < st@.len(),
                before == st@.subrange(0, i as int),
                *tiplocs == st@[i as int].tiplocs,
                j <= tiplocs@.len(),
                forall|t: Seq<char>| packable(t) ==> (m@.contains_key(#[trigger] code_key(t) as u64) <==>
                    (first_tiploc(before, t) is Some || texts(tiplocs@.subrange(0, j as int)).contains(t)))
                    && (m@.contains_key(code_key(t) as u64) ==> m@[code_key(t) as u64] as int == (
                        if first_tiploc(before, t) is Some { first_tiploc(before, t).unwrap() } else { i as int })),
            decreases tiplocs@.len() - j,
        {
            let ghost m0 = m@;
            let ghost tj = tiplocs@[j as int]@;
            assert(texts(tiplocs@.subrange(0, j + 1)) =~= texts(tiplocs@.subrange(0, j as int)).push(tj));
            let ghost prev = texts(tiplocs@.subrange(0, j as int));
            let ghost next = texts(tiplocs@.subrange(0, j + 1));
            assert(next =~= prev.push(tj));
            assert forall|t: Seq<char>| #[trigger] next.contains(t) <==> prev.contains(t) || t == tj by {
                if t == tj {
                    assert(next[j as int] == tj);
                }
                if prev.contains(t) {
                    let w = choose|w: int| 0 <= w < prev.len() && prev[w] == t;
                    assert(next[w] == t);
                }
                if next.contains(t) {
                    let w = choose|w: int| 0 <= w < next.len() && next[w] == t;
                    if w < prev.len() {
                        assert(prev[w] == t);
                    }
                }
            }
            match code_key_of(tiplocs[j].as_str()) {
                Some(k) => {
                    let present = m.contains_key(&k);
                    if !present {
                        m.insert(k, i);
                    }
                    proof {
                        lemma_key_bound(tj);
                        assert forall|t: Seq<char>| packable(t) implies (m@.contains_key(#[trigger] code_key(t) as u64) <==>
                            (first_tiploc(before, t) is Some || next.contains(t)))
                            && (m@.contains_key(code_key(t) as u64) ==> m@[code_key(t) as u64] as int == (
                                if first_tiploc(before, t) is Some { first_tiploc(before, t).unwrap() } else { i as int })) by {
                            lemma_key_bound(t);
                            if code_key(t) as u64 == k {
                                lemma_key_injective(t, tj);
                                assert(t == tj);
                            } else {
                                assert(t != tj);
                                assert(m@.contains_key(code_key(t) as u64) == m0.contains_key(code_key(t) as u64));
                            }
                        }
                    }
                },
                None => {
                    proof {
                        assert forall|t: Seq<char>| packable(t) implies (m@.contains_key(#[trigger] code_key(t) as u64) <==>
                            (first_tiploc(before, t) is Some || next.contains(t)))
                            && (m@.contains_key(code_key(t) as u64) ==> m@[code_key(t) as u64] as int == (
                                if first_tiploc(before, t) is Some { first_tiploc(before, t).unwrap() } else { i as int })) by {
                            assert(t != tj);
                        }
                    }
                },
            }
            j = j + 1;
        }
        proof {
            let after = st@.subrange(0, i + 1);
            assert(after.drop_last() =~= before);
            assert(after.last() == st@[i as int]);
            assert(tiplocs@.subrange(0, j as int) =~= tiplocs@);
            assert forall|t: Seq<char>| packable(t) implies (m@.contains_key(#[trigger] code_key(t) as u64) <==> first_tiploc(after, t) is Some)
                && (m@.contains_key(code_key(t) as u64) ==> m@[code_key(t) as u64] as int == first_tiploc(after, t).unwrap()) by {
                if texts(tiplocs@).contains(t) {
                    let w = choose|w: int| 0 <= w < texts(tiplocs@).len() && texts(tiplocs@)[w] == t;
                    assert(tiplocs@[w]@ == t);
                }
                if has_text(tiplocs@, t) {
                    let w = choose|w: int| 0 <= w < tiplocs@.len() && (#[trigger] tiplocs@[w])@ == t;
                    assert(texts(tiplocs@)[w] == t);
                }
            }
        }
        i = i + 1;
    }
    assert(st@.subrange(0, i as int) =~= st@);
    m
}

/// What `first_crs` finds: a station with the code, none before it.
proof fn lemma_first_crs(st: Seq<Station>, code: Seq<char>)
    ensures
        first_crs(st, code) matches Some(i) ==> 0 <= i < st.len() && st[i].crs_code@ == code
            && forall|j: int| 0 <= j < i ==> (#[trigger] st[j]).crs_code@ != code,
        first_crs(st, code) is None ==> forall|j: int| 0 <= j < st.len() ==> (#[trigger] st[j]).crs_code@ != code,
    decreases st.len(),
{
    if st.len() > 0 {
        lemma_first_crs(st.drop_last(), code);
        assert forall|j: int| 0 <= j < st.len() - 1 implies #[trigger] st[j] == st.drop_last()[j] by {}
    }
}

/// Whether the map takes the key of each packable CRS code to the first
/// station that has it, and holds no key for a code that no station has.
pub open spec fn indexes_crs(m: Map<u64, usize>, st: Seq<Station>) -> bool {
    forall|t: Seq<char>| packable(t) ==> (m.contains_key(#[trigger] code_key(t) as u64) <==> first_crs(st, t) is Some)
        && (m.contains_key(code_key(t) as u64) ==> m[code_key(t) as u64] as int == first_crs(st, t).unwrap())
}

/// The index from CRS code keys to the first station with each code.
fn build_crs_index(st: &Vec<Station>) -> (r: HashMap<u64, usize>)
    ensures
        indexes_crs(r@, st@),
{
    let mut m: HashMap<u64, usize> = HashMap::new();
    let mut i: usize = 0;
    assert(st@.subrange(0, 0) =~= Seq::<Station>::empty());
    while i < st.len()
        invariant
            i <= st@.len(),
            indexes_crs(m@, st@.subrange(0, i as int)),
        decreases st@.len() - i,
    {
        let ghost before = st@.subrange(0, i as int);
        let ghost after = st@.subrange(0, i + 1);
        let ghost ci = st@[i as int].crs_code@;
        assert(after.drop_last() =~= before);
        assert(after.last() == st@[i as int]);
        match code_key_of(st[i].crs_code.as_str()) {
            Some(k) => {
                let ghost m0 = m@;
                let present = m.contains_key(&k);
                if !present {
                    m.insert(k, i);
                }
                proof {
                    lemma_key_bound(ci);
                    assert forall|t: Seq<char>| packable(t) implies (m@.contains_key(#[trigger] code_key(t) as u64) <==> first_crs(after, t) is Some)
                        && (m@.contains_key(code_key(t) as u64) ==> m@[code_key(t) as u64] as int == first_crs(after, t).unwrap()) by {
                        lemma_key_bound(t);
                        if code_key(t) as u64 == k {
                            lemma_key_injective(t, ci);
                        } else {
                            assert(t != ci);
                            assert(m@.contains_key(code_key(t) as u64) == m0.contains_key(code_key(t) as u64));
                        }
                    }
                }
            },
            None => {
                proof {
                    assert forall|t: Seq<char>| packable(t) implies (m@.contains_key(#[trigger] code_key(t) as u64) <==> first_crs(after, t) is Some)
                        && (m@.contains_key(code_key(t) as u64) ==> m@[code_key(t) as u64] as int == first_crs(after, t).unwrap()) by {
                        assert(t != ci);
                    }
                }
            },
        }
        i = i + 1;
    }
    assert(st@.subrange(0, i as int) =~= st@);
    m
}

/// The bucket key of a name: the key of its first seven characters where it
/// is ASCII, else zero.
pub open spec fn name_key(t: Seq<char>) -> u64 {
    if vstd::utf8::is_ascii_chars(t) {
        code_key(t.subrange(0, if t.len() < 7 { t.len() as int } else { 7 })) as u64
    } else {
        0
    }
}

/// The bucket key of a name.
fn name_key_of(t: &str) -> (r: u64)
    ensures
        r == name_key(t@),
{
    if !t.is_ascii() {
        return 0;
    }
    let n = crate::record_parsing::ascii_len(t);
    let m = if n < 7 { n } else { 7 };
    let prefix = t.substring_ascii(0, m);
    proof {
        assert(vstd::utf8::is_ascii_chars(prefix@));
    }
    match code_key_of(prefix) {
        Some(k) => k,
        None => 0,
    }
}

/// Whether `v` is strictly increasing and below `n`.
pub open spec fn ascending_below(v: Seq<usize>, n: int) -> bool {
    &&& forall|a: int, b: int| 0 <= a < b < v.len() ==> v[a] < v[b]
    &&& forall|a: int| 0 <= a < v.len() ==> (#[trigger] v[a]) < n
}

/// Whether each bucket of the map lists, in increasing order, station ids,
/// and every station that has a name is in that name's bucket.
pub open spec fn indexes_names(m: Map<u64, Vec<usize>>, st: Seq<Station>) -> bool {
    &&& forall|k: u64| #[trigger] m.contains_key(k) ==> ascending_below(m[k]@, st.len() as int)
    &&& forall|t: Seq<char>, i: int| 0 <= i < st.len() && #[trigger] has_text(st[i].names@, t)
        ==> m.contains_key(name_key(t)) && m[name_key(t)]@.contains(i as usize)
}

/// The index from name keys to the stations with a name of that key.
fn build_name_index(st: &Vec<Station>) -> (r: HashMap<u64, Vec<usize>>)
    ensures
        indexes_names(r@, st@),
{
    let mut m: HashMap<u64, Vec<usize>> = HashMap::new();
    let mut i: usize = 0;
    while i < st.len()
        invariant
            i <= st@.len(),
            forall|k: u64| #[trigger] m@.contains_key(k) ==> ascending_below(m@[k]@, i as int),
            forall|t: Seq<char>, j: int| 0 <= j < i && #[trigger] has_text(st@[j].names@, t)
                ==> m@.contains_key(name_key(t)) && m@[name_key(t)]@.contains(j as usize),
        decreases st@.len() - i,
    {
        let names = &st[i].names;
        let mut k: usize = 0;
        while k < names.len()
            invariant
                i < st@.len(),
                *names == st@[i as int].names,
                k <= names@.len(),
                forall|key: u64| #[trigger] m@.contains_key(key) ==> ascending_below(m@[key]@, i + 1),
                forall|t: Seq<char>, j: int| 0 <= j < i && #[trigger] has_text(st@[j].names@, t)
                    ==> m@.contains_key(name_key(t)) && m@[name_key(t)]@.contains(j as usize),
                forall|q: int| 0 <= q < k ==> m@.contains_key(name_key(#[trigger] names@[q]@))
                    && m@[name_key(names@[q]@)]@.contains(i),
            decreases names@.len() - k,
        {
            let key = name_key_of(names[k].as_str());
            let ghost m0 = m@;
            let mut bucket = match m.remove(&key) {
                Some(b) => b,
                None => Vec::new(),
            };
            let ghost b0 = bucket@;
            assert(m0.contains_key(key) ==> b0 == m0[key]@);
            assert(!m0.contains_key(key) ==> b0 == Seq::<usize>::empty());
            let blen = bucket.len();
            if blen == 0 || bucket[blen - 1] != i {
                bucket.push(i);
            }
            proof {
                assert(ascending_below(bucket@, i + 1)) by {
                    if blen > 0 && b0[blen - 1] != i {
                        assert(b0[blen - 1] < i + 1);
                        assert forall|a: int, b: int| 0 <= a < b < bucket@.len() implies bucket@[a] < bucket@[b] by {
                            if b == blen {
                                assert(b0[a] <= b0[blen - 1]);
                            }
                        }
                    }
                }
                assert(bucket@.contains(i)) by {
                    if blen == 0 || b0[blen - 1] != i {
                        assert(bucket@[blen as int] == i);
                    } else {
                        assert(bucket@[blen - 1] == i);
                    }
                }
                assert forall|x: usize| b0.contains(x) implies bucket@.contains(x) by {
                    let w = choose|w: int| 0 <= w < b0.len() && b0[w] == x;
                    assert(bucket@[w] == x);
                }
            }
            m.insert(key, bucket);
            proof {
                assert forall|t: Seq<char>, j: int| 0 <= j < i && #[trigger] has_text(st@[j].names@, t)
                    implies m@.contains_key(name_key(t)) && m@[name_key(t)]@.contains(j as usize) by {
                    if name_key(t) == key {
                        assert(b0.contains(j as usize));
                    }
                }
                assert forall|q: int| 0 <= q < k + 1 implies m@.contains_key(name_key(#[trigger] names@[q]@))
                    && m@[name_key(names@[q]@)]@.contains(i) by {
                    if q < k && name_key(names@[q]@) == key {
                        assert(b0.contains(i));
                    }
                }
            }
            k = k + 1;
        }
        proof {
            assert forall|t: Seq<char>, j: int| 0 <= j < i + 1 && #[trigger] has_text(st@[j].names@, t)
                implies m@.contains_key(name_key(t)) && m@[name_key(t)]@.contains(j as usize) by {
                if j == i {
                    let q = choose|q: int| 0 <= q < names@.len() && (#[trigger] names@[q])@ == t;
                    assert(m@.contains_key(name_key(names@[q]@)));
                }
            }
        }
        i = i + 1;
    }
    m
}

/// What `first_name` finds: a station with the name, none before it.
proof fn lemma_first_name(st: Seq<Station>, t: Seq<char>)
    ensures
        first_name(st, t) matches Some(i) ==> 0 <= i < st.len() && has_text(st[i].names@, t)
            && forall|j: int| 0 <= j < i ==> !has_text(#[trigger] st[j].names@, t),
        first_name(st, t) is None ==> forall|j: int| 0 <= j < st.len() ==> !has_text(#[trigger] st[j].names@, t),
    decreases st.len(),
{
    if st.len() > 0 {
        lemma_first_name(st.drop_last(), t);
        assert forall|j: int| 0 <= j < st.len() - 1 implies #[trigger] st[j] == st.drop_last()[j] by {}
    }
}

/// The index of the first station that has `name` among its names.
pub open spec fn first_name(st: Seq<Station>, name: Seq<char>) -> Option<int>
    decreases st.len(),
{
    if st.len() == 0 {
        None
    } else {
        match first_name(st.drop_last(), name) {
            Some(i) => Some(i),
            None => if has_text(st.last().names@, name) {
                Some(st.len() - 1)
            } else {
                None
            },
        }
    }
}

proof fn lemma_first_name_prefix(st: Seq<Station>, name: Seq<char>, k: int)
    requires
        0 <= k <= st.len(),
        first_name(st.subrange(0, k), name) is Some,
    ensures
        first_name(st, name) == first_name(st.subrange(0, k), name),
    decreases st.len(),
{
    if k == st.len() {
        assert(st.subrange(0, k) =~= st);
    } else {
        assert(st.drop_last().subrange(0, k) =~= st.subrange(0, k));
        lemma_first_name_prefix(st.drop_last(), name, k);
    }
}

/// A station as the feed describes it: TIPLOCs, CRS code, names, minimum
/// change time and grid reference east and north.
pub type StationModel = (Seq<Seq<char>>, Seq<char>, Seq<Seq<char>>, u32, i32, i32);

/// A station's model.
pub open spec fn station_model(s: Station) -> StationModel {
    (texts(s.tiplocs@), s.crs_code@, texts(s.names@), s.min_change_time, s.gref_east, s.gref_north)
}

/// The models of the stations, in order.
pub open spec fn models(v: Seq<Station>) -> Seq<StationModel> {
    v.map_values(|s: Station| station_model(s))
}

/// The index of the first model whose CRS code is `code`.
pub open spec fn first_crs_model(ms: Seq<StationModel>, code: Seq<char>) -> Option<int>
    decreases ms.len(),
{
    if ms.len() == 0 {
        None
    } else {
        match first_crs_model(ms.drop_last(), code) {
            Some(i) => Some(i),
            None => if ms.last().1 == code {
                Some(ms.len() - 1)
            } else {
                None
            },
        }
    }
}

/// The index of the first model that has `name` among its names.
pub open spec fn first_name_model(ms: Seq<StationModel>, name: Seq<char>) -> Option<int>
    decreases ms.len(),
{
    if ms.len() == 0 {
        None
    } else {
        match first_name_model(ms.drop_last(), name) {
            Some(i) => Some(i),
            None => if ms.last().2.contains(name) {
                Some(ms.len() - 1)
            } else {
                None
            },
        }
    }
}

proof fn lemma_first_models(st: Seq<Station>, code: Seq<char>, name: Seq<char>)
    ensures
        first_crs(st, code) == first_crs_model(models(st), code),
        first_name(st, name) == first_name_model(models(st), name),
    decreases st.len(),
{
    if st.len() > 0 {
        assert(models(st).drop_last() =~= models(st.drop_last()));
        lemma_first_models(st.drop_last(), code, name);
        let last = st.last();
        assert(models(st).last() == station_model(last));
        if has_text(last.names@, name) {
            let k = choose|k: int| 0 <= k < last.names@.len() && (#[trigger] last.names@[k])@ == name;
            assert(texts(last.names@)[k] == name);
        }
        if texts(last.names@).contains(name) {
            let k = choose|k: int| 0 <= k < texts(last.names@).len() && texts(last.names@)[k] == name;
            assert(last.names@[k]@ == name);
        }
    }
}

/// The station that a valid `A` record describes.
pub open spec fn record_model(line: Seq<char>) -> StationModel {
    (
        seq![record_field(line, 36, 7).unwrap()],
        record_field(line, 49, 3).unwrap(),
        seq![record_field(line, 5, 26).unwrap()],
        decimal_value(record_field(line, 63, 2).unwrap(), false).unwrap() as u32,
        decimal_value(record_field(line, 53, 4).unwrap(), true).unwrap() as i32,
        decimal_value(record_field(line, 59, 4).unwrap(), true).unwrap() as i32,
    )
}

/// A station merged with a later record of its CRS code: the record's
/// TIPLOCs are appended, and its names that the station lacks.
pub open spec fn merged(a: StationModel, b: StationModel) -> StationModel {
    (a.0 + b.0, a.1, union_texts(a.2, b.2), a.3, a.4, a.5)
}

/// A station with one more name.
pub open spec fn with_alias(a: StationModel, alias: Seq<char>) -> StationModel {
    (a.0, a.1, a.2.push(alias), a.3, a.4, a.5)
}

/// Reading the station feed's lines: the stations, and whether the header
/// `A` record is still to come; or the 1-based number of the first line in
/// error.
pub open spec fn msn_fold(lines: Seq<Seq<char>>) -> Result<(Seq<StationModel>, bool), int>
    decreases lines.len(),
{
    if lines.len() == 0 {
        Ok((Seq::empty(), true))
    } else {
        match msn_fold(lines.drop_last()) {
            Err(n) => Err(n),
            Ok((ms, head)) => {
                let line = lines.last();
                let n = lines.len() as int;
                if line.len() > 0 && line[0] == 'A' {
                    if head {
                        Ok((ms, false))
                    } else if !msn_record_ok(line) {
                        Err(n)
                    } else {
                        let rec = record_model(line);
                        match first_crs_model(ms, rec.1) {
                            Some(i) => Ok((ms.update(i, merged(ms[i], rec)), false)),
                            None => Ok((ms.push(rec), false)),
                        }
                    }
                } else if line.len() > 0 && line[0] == 'L' {
                    if line.len() < 62 {
                        Err(n)
                    } else {
                        match first_name_model(ms, record_field(line, 5, 26).unwrap()) {
                            None => Err(n),
                            Some(i) => Ok((ms.update(i, with_alias(ms[i], record_field(line, 36, 26).unwrap())), head)),
                        }
                    }
                } else {
                    Ok((ms, head))
                }
            },
        }
    }
}

proof fn lemma_msn_prefix_err(lines: Seq<Seq<char>>, k: int)
    requires
        0 <= k <= lines.len(),
        msn_fold(lines.subrange(0, k)) is Err,
    ensures
        msn_fold(lines) == msn_fold(lines.subrange(0, k)),
    decreases lines.len(),
{
    if k == lines.len() {
        assert(lines.subrange(0, k) =~= lines);
    } else {
        assert(lines.drop_last().subrange(0, k) =~= lines.subrange(0, k));
        lemma_msn_prefix_err(lines.drop_last(), k);
    }
}

/// The registry of stations; a station's id is its index.
#[derive(Debug)]
pub struct StationList {
    stations: Vec<Station>,
    by_tiploc: HashMap<u64, usize>,
    by_crs: HashMap<u64, usize>,
    by_name: HashMap<u64, Vec<usize>>,
}

impl View for StationList {
    type V = Seq<Station>;

    closed spec fn view(&self) -> Seq<Station> {
        self.stations@
    }
}

/// Whether every station's id is its index.
pub open spec fn ids_match(s: Seq<Station>) -> bool {
    forall|i: int| 0 <= i < s.len() ==> (#[trigger] s[i]).id == i
}

/// Whether `v` holds the text `t`.
pub open spec fn has_text(v: Seq<String>, t: Seq<char>) -> bool {
    exists|k: int| 0 <= k < v.len() && (#[trigger] v[k])@ == t
}

/// Whether one of the station's names or aliases contains `name`.
pub open spec fn name_matches(s: Station, name: Seq<char>) -> bool {
    exists|k: int| 0 <= k < s.names@.len() && contains_text(#[trigger] s.names@[k]@, name)
}

impl StationList {
    /// Whether each station's id is its index and the indexes are current.
    pub open spec fn wf(&self) -> bool {
        ids_match(self@) && self.index_ok()
    }

    /// Whether the TIPLOC, CRS and name indexes are those of the stations.
    pub closed spec fn index_ok(&self) -> bool {
        &&& indexes_tiplocs(self.by_tiploc@, self.stations@)
        &&& indexes_crs(self.by_crs@, self.stations@)
        &&& indexes_names(self.by_name@, self.stations@)
    }

    /// A registry of the given stations, each given its index as id.
    pub fn new(statlist: Vec<Station>) -> (r: Self)
        ensures
            r.wf(),
            r@.len() == statlist@.len(),
            forall|i: int| 0 <= i < statlist@.len() ==> {
                let (a, b) = (#[trigger] r@[i], statlist@[i]);
                a.tiplocs == b.tiplocs && a.crs_code == b.crs_code && a.names == b.names
                    && a.min_change_time == b.min_change_time && a.gref_east == b.gref_east
                    && a.gref_north == b.gref_north
            },
            (forall|i: int, k: int| 0 <= i < statlist@.len() && 0 <= k < statlist@[i].names@.len()
                ==> (#[trigger] statlist@[i].names@[k]).is_ascii()) ==> r.all_ascii(),
    {
        let mut stations = statlist;
        let ghost orig = stations@;
        let mut i: usize = 0;
        while i < stations.len()
            invariant
                stations@.len() == orig.len(),
                i <= stations@.len(),
                forall|k: int| 0 <= k < i ==> (#[trigger] stations@[k]).id == k,
                forall|k: int| 0 <= k < stations@.len() ==> {
                    let (a, b) = (#[trigger] stations@[k], orig[k]);
                    a.tiplocs == b.tiplocs && a.crs_code == b.crs_code && a.names == b.names
                        && a.min_change_time == b.min_change_time && a.gref_east == b.gref_east
                        && a.gref_north == b.gref_north
                },
            decreases stations@.len() - i,
        {
            stations[i].id = i;
            i = i + 1;
        }
        let by_tiploc = build_tiploc_index(&stations);
        let by_crs = build_crs_index(&stations);
        let by_name = build_name_index(&stations);
        StationList { stations, by_tiploc, by_crs, by_name }
    }

    /// The stations in id order.
    pub fn iter(&self) -> (r: &[Station])
        ensures
            r@ == self@,
    {
        self.stations.as_slice()
    }

    /// The station of the given id.
    pub fn get(&self, id: StationId) -> (r: Option<&Station>)
        ensures
            id < self@.len() ==> r == Some(&self@[id as int]),
            id >= self@.len() ==> r is None,
    {
        if id < self.stations.len() {
            Some(&self.stations[id])
        } else {
            None
        }
    }

    /// The first station that has `name` among its names and aliases, found
    /// in the bucket of the name's key.
    pub fn get_by_name(&self, name: &str) -> (r: Option<&Station>)
        requires
            self.wf(),
        ensures
            r matches Some(s) ==> has_text(s.names@, name@) && exists|i: int|
                0 <= i < self@.len() && self@[i] == *s && forall|j: int| 0 <= j < i ==> !has_text(#[trigger] self@[j].names@, name@),
            r is None ==> forall|i: int| 0 <= i < self@.len() ==> !has_text(#[trigger] self@[i].names@, name@),
            match r {
                Some(s) => first_name(self@, name@) == Some(s.id as int),
                None => first_name(self@, name@) is None,
            },
    {
        let key = name_key_of(name);
        proof {
            lemma_first_name(self@, name@);
        }
        let bucket = match self.by_name.get(&key) {
            Some(b) => b,
            None => {
                assert forall|i: int| 0 <= i < self@.len() implies !has_text(#[trigger] self@[i].names@, name@) by {
                    if has_text(self@[i].names@, name@) {
                        assert(self.by_name@.contains_key(name_key(name@)));
                    }
                }
                return None;
            },
        };
        assert(ascending_below(bucket@, self@.len() as int));
        let mut q: usize = 0;
        while q < bucket.len()
            invariant
                self.wf(),
                self@ == self.stations@,
                self.by_name@.contains_key(key),
                key == name_key(name@),
                bucket@ == self.by_name@[key]@,
                ascending_below(bucket@, self@.len() as int),
                q <= bucket@.len(),
                forall|w: int| 0 <= w < q ==> !has_text(self@[#[trigger] bucket@[w] as int].names@, name@),
            decreases bucket@.len() - q,
        {
            let id = bucket[q];
            if find_text(&self.stations[id].names, name) {
                proof {
                    assert forall|j: int| 0 <= j < id implies !has_text(#[trigger] self@[j].names@, name@) by {
                        if has_text(self@[j].names@, name@) {
                            assert(bucket@.contains(j as usize));
                            let w = choose|w: int| 0 <= w < bucket@.len() && bucket@[w] == j as usize;
                            if w >= q {
                                assert(bucket@[w] >= bucket@[q as int]) by {
                                    if w > q {
                                        assert(bucket@[q as int] < bucket@[w]);
                                    }
                                }
                            }
                        }
                    }
                    lemma_first_name(self@, name@);
                    assert(has_text(self@[id as int].names@, name@));
                    assert(self@[id as int].id == id);
                    match first_name(self@, name@) {
                        Some(f) => {
                            if f < id {
                            } else if f > id {
                                assert(!has_text(self@[id as int].names@, name@));
                            }
                        },
                        None => {},
                    }
                }
                return Some(&self.stations[id]);
            }
            q = q + 1;
        }
        assert forall|i: int| 0 <= i < self@.len() implies !has_text(#[trigger] self@[i].names@, name@) by {
            if has_text(self@[i].names@, name@) {
                let w = choose|w: int| 0 <= w < bucket@.len() && bucket@[w] == i as usize;
                assert(!has_text(self@[bucket@[w] as int].names@, name@));
            }
        }
        None
    }

    /// The first station that has `name` among its names and aliases, by search.
    fn find_name(&self, name: &str) -> (r: Option<&Station>)
        ensures
            r matches Some(s) ==> has_text(s.names@, name@) && exists|i: int|
                0 <= i < self@.len() && self@[i] == *s && forall|j: int| 0 <= j < i ==> !has_text(#[trigger] self@[j].names@, name@),
            r is None ==> forall|i: int| 0 <= i < self@.len() ==> !has_text(#[trigger] self@[i].names@, name@),
            ids_match(self@) ==> match r {
                Some(s) => first_name(self@, name@) == Some(s.id as int),
                None => first_name(self@, name@) is None,
            },
    {
        let mut i: usize = 0;
        while i < self.stations.len()
            invariant
                i <= self@.len(),
                self@ == self.stations@,
                forall|j: int| 0 <= j < i ==> !has_text(#[trigger] self@[j].names@, name@),
                first_name(self@.subrange(0, i as int), name@) is None,
            decreases self@.len() - i,
        {
            assert(self@.subrange(0, i + 1).drop_last() =~= self@.subrange(0, i as int));
            if find_text(&self.stations[i].names, name) {
                proof {
                    lemma_first_name_prefix(self@, name@, i + 1);
                }
                return Some(&self.stations[i]);
            }
            i = i + 1;
        }
        assert(self@.subrange(0, i as int) =~= self@);
        None
    }

    /// The first station that has `tiploc` among its TIPLOCs, found through
    /// the index where the TIPLOC is at most seven ASCII characters.
    pub fn get_by_tiploc(&self, tiploc: &str) -> (r: Option<&Station>)
        requires
            self.wf(),
        ensures
            r matches Some(s) ==> has_text(s.tiplocs@, tiploc@) && exists|i: int|
                0 <= i < self@.len() && self@[i] == *s && forall|j: int| 0 <= j < i ==> !has_text(#[trigger] self@[j].tiplocs@, tiploc@),
            r is None ==> forall|i: int| 0 <= i < self@.len() ==> !has_text(#[trigger] self@[i].tiplocs@, tiploc@),
            match r {
                Some(s) => first_tiploc(self@, tiploc@) == Some(s.id as int),
                None => first_tiploc(self@, tiploc@) is None,
            },
    {
        match code_key_of(tiploc) {
            Some(k) => {
                proof {
                    lemma_first_tiploc(self@, tiploc@);
                    lemma_key_bound(tiploc@);
                    assert(self.by_tiploc@.contains_key(code_key(tiploc@) as u64) <==> first_tiploc(self@, tiploc@) is Some);
                }
                match self.by_tiploc.get(&k) {
                    Some(id) => {
                        let id = *id;
                        let st = &self.stations[id];
                        assert(self@[id as int] == *st);
                        Some(st)
                    },
                    None => None,
                }
            },
            None => self.find_tiploc(tiploc),
        }
    }

    /// The first station that has `tiploc` among its TIPLOCs, by search.
    fn find_tiploc(&self, tiploc: &str) -> (r: Option<&Station>)
        ensures
            r matches Some(s) ==> has_text(s.tiplocs@, tiploc@) && exists|i: int|
                0 <= i < self@.len() && self@[i] == *s && forall|j: int| 0 <= j < i ==> !has_text(#[trigger] self@[j].tiplocs@, tiploc@),
            r is None ==> forall|i: int| 0 <= i < self@.len() ==> !has_text(#[trigger] self@[i].tiplocs@, tiploc@),
            ids_match(self@) ==> match r {
                Some(s) => first_tiploc(self@, tiploc@) == Some(s.id as int),
                None => first_tiploc(self@, tiploc@) is None,
            },
    {
        let mut i: usize = 0;
        while i < self.stations.len()
            invariant
                i <= self@.len(),
                self@ == self.stations@,
                forall|j: int| 0 <= j < i ==> !has_text(#[trigger] self@[j].tiplocs@, tiploc@),
                first_tiploc(self@.subrange(0, i as int), tiploc@) is None,
            decreases self@.len() - i,
        {
            assert(self@.subrange(0, i + 1).drop_last() =~= self@.subrange(0, i as int));
            if find_text(&self.stations[i].tiplocs, tiploc) {
                proof {
                    lemma_first_tiploc_prefix(self@, tiploc@, i + 1);
                }
                return Some(&self.stations[i]);
            }
            i = i + 1;
        }
        assert(self@.subrange(0, i as int) =~= self@);
        None
    }

    /// The first station whose CRS code is `crs`, found through the index
    /// where the code is at most seven ASCII characters.
    pub fn get_by_crs(&self, crs: &str) -> (r: Option<&Station>)
        requires
            self.wf(),
        ensures
            r matches Some(s) ==> s.crs_code@ == crs@ && exists|i: int|
                0 <= i < self@.len() && self@[i] == *s && forall|j: int| 0 <= j < i ==> (#[trigger] self@[j]).crs_code@ != crs@,
            r is None ==> forall|i: int| 0 <= i < self@.len() ==> (#[trigger] self@[i]).crs_code@ != crs@,
            match r {
                Some(s) => first_crs(self@, crs@) == Some(s.id as int),
                None => first_crs(self@, crs@) is None,
            },
    {
        match code_key_of(crs) {
            Some(k) => {
                proof {
                    lemma_first_crs(self@, crs@);
                    lemma_key_bound(crs@);
                    assert(self.by_crs@.contains_key(code_key(crs@) as u64) <==> first_crs(self@, crs@) is Some);
                }
                match self.by_crs.get(&k) {
                    Some(id) => {
                        let id = *id;
                        let st = &self.stations[id];
                        assert(self@[id as int] == *st);
                        Some(st)
                    },
                    None => None,
                }
            },
            None => self.find_crs(crs),
        }
    }

    /// The first station whose CRS code is `crs`, by search.
    fn find_crs(&self, crs: &str) -> (r: Option<&Station>)
        ensures
            r matches Some(s) ==> s.crs_code@ == crs@ && exists|i: int|
                0 <= i < self@.len() && self@[i] == *s && forall|j: int| 0 <= j < i ==> (#[trigger] self@[j]).crs_code@ != crs@,
            r is None ==> forall|i: int| 0 <= i < self@.len() ==> (#[trigger] self@[i]).crs_code@ != crs@,
            ids_match(self@) ==> match r {
                Some(s) => first_crs(self@, crs@) == Some(s.id as int),
                None => first_crs(self@, crs@) is None,
            },
    {
        let mut i: usize = 0;
        while i < self.stations.len()
            invariant
                i <= self@.len(),
                self@ == self.stations@,
                forall|j: int| 0 <= j < i ==> (#[trigger] self@[j]).crs_code@ != crs@,
                first_crs(self@.subrange(0, i as int), crs@) is None,
            decreases self@.len() - i,
        {
            assert(self@.subrange(0, i + 1).drop_last() =~= self@.subrange(0, i as int));
            if str_equal(self.stations[i].crs_code.as_str(), crs) {
                proof {
                    lemma_first_crs_prefix(self@, crs@, i + 1);
                }
                return Some(&self.stations[i]);
            }
            i = i + 1;
        }
        assert(self@.subrange(0, i as int) =~= self@);
        None
    }

    /// The ids of the stations one of whose names or aliases contains `name`.
    pub fn name_search(&self, name: &str) -> (r: HashSet<StationId>)
        requires
            self.wf(),
            self.all_ascii(),
            name.is_ascii(),
        ensures
            forall|x: StationId| #[trigger] r@.contains(x) <==> (x < self@.len() && name_matches(self@[x as int], name@)),
    {
        let mut rs: HashSet<StationId> = HashSet::new();
        let mut i: usize = 0;
        while i < self.stations.len()
            invariant
                i <= self@.len(),
                self@ == self.stations@,
                self.all_ascii(),
                name.is_ascii(),
                forall|x: StationId| #[trigger] rs@.contains(x) <==> (x < i && name_matches(self@[x as int], name@)),
            decreases self@.len() - i,
        {
            let names = &self.stations[i].names;
            let mut found = false;
            let mut k: usize = 0;
            while k < names.len()
                invariant
                    k <= names@.len(),
                    names@ == self@[i as int].names@,
                    i < self@.len(),
                    self.all_ascii(),
                    name.is_ascii(),
                    found == exists|q: int| 0 <= q < k && contains_text(#[trigger] names@[q]@, name@),
                decreases names@.len() - k,
            {
                if str_contains(names[k].as_str(), name) {
                    found = true;
                }
                k = k + 1;
            }
            if found {
                rs.insert(i);
            }
            i = i + 1;
        }
        rs
    }

    /// Whether no two stations share a CRS code.
    pub open spec fn crs_unique(&self) -> bool {
        forall|i: int, j: int| 0 <= i < j < self@.len() ==> (#[trigger] self@[i]).crs_code@ != (#[trigger] self@[j]).crs_code@
    }

    /// Reads the station feed. The first `A` record is a header and skipped;
    /// each other `A` record adds a station, or is merged into the station
    /// that has its CRS code already; each `L` record adds an alias to the
    /// station holding its name. Other lines are ignored.
    pub fn read_msn_file(text: &str) -> (r: Result<Self, RailError>)
        requires
            text.is_ascii(),
        ensures
            r matches Ok(list) ==> list.wf() && list.all_ascii() && list.crs_unique()
                && (msn_fold(text_lines(text@)) matches Ok((ms, _)) && ms == models(list@)),
            r matches Err(e) ==> e.line >= 1 && e.kind == ErrorKind::InvalidData
                && msn_fold(text_lines(text@)) == Err::<(Seq<StationModel>, bool), int>(e.line as int),
    {
        let mut stations = StationList { stations: Vec::new(), by_tiploc: HashMap::new(), by_crs: HashMap::new(), by_name: HashMap::new() };
        let n = crate::record_parsing::ascii_len(text);
        let mut pos: usize = 0;
        let mut line_num: usize = 0;
        let mut a_rec_head = true;
        let ghost all = text_lines(text@);
        assert(models(stations@) =~= Seq::<StationModel>::empty());
        assert(all.subrange(0, 0) =~= Seq::<Seq<char>>::empty());
        while pos < n
            invariant
                n == text@.len(),
                text.is_ascii(),
                pos <= n,
                line_num <= pos,
                ids_match(stations@),
                stations.all_ascii(),
                stations.crs_unique(),
                all == text_lines(text@),
                line_num <= all.len(),
                all == all.subrange(0, line_num as int) + lines_from(text@, pos as int),
                msn_fold(all.subrange(0, line_num as int)) == Ok::<(Seq<StationModel>, bool), int>((models(stations@), a_rec_head)),
            decreases n - pos,
        {
            let (line, next) = line_at(text, pos);
            let ghost done = all.subrange(0, line_num as int);
            let ghost rest = lines_from(text@, next as int);
            let ghost ms = models(stations@);
            pos = next;
            line_num = line_num + 1;
            proof {
                assert(all == done + (seq![line@] + rest));
                assert(all.subrange(0, line_num as int) =~= done.push(line@));
                assert(all =~= all.subrange(0, line_num as int) + rest);
                assert(all.subrange(0, line_num as int).drop_last() =~= done);
                lemma_first_models(stations@, Seq::empty(), Seq::empty());
            }
            let len = crate::record_parsing::ascii_len(line);
            if len > 0 && line.get_ascii(0) == 65 {
                if a_rec_head {
                    a_rec_head = false;
                } else {
                    let s = match append_err_context(Station::from_msn_a_record(line.to_owned()), line_num) {
                        Ok(s) => s,
                        Err(e) => {
                            proof {
                                lemma_msn_prefix_err(all, line_num as int);
                            }
                            return Err(e);
                        },
                    };
                    proof {
                        assert(station_model(s) == record_model(line@));
                        lemma_first_models(stations@, s.crs_code@, Seq::empty());
                    }
                    match stations.find_crs(s.crs_code.as_str()) {
                        Some(existing) => {
                            let id = existing.id;
                            stations.merge_into(id, &s);
                        },
                        None => {
                            stations.add_new(s);
                        },
                    }
                }
            } else if len > 0 && line.get_ascii(0) == 76 {
                let name = match extract_record_field("name", line, 5, 26) {
                    Ok(f) => f,
                    Err(e) => {
                        proof {
                            lemma_msn_prefix_err(all, line_num as int);
                        }
                        return Err(RailError { kind: e.kind, line: line_num, reason: e.reason });
                    },
                };
                let alias = match extract_record_field("alias", line, 36, 26) {
                    Ok(f) => f,
                    Err(e) => {
                        proof {
                            lemma_msn_prefix_err(all, line_num as int);
                        }
                        return Err(RailError { kind: e.kind, line: line_num, reason: e.reason });
                    },
                };
                proof {
                    lemma_first_models(stations@, Seq::empty(), name@);
                }
                match stations.find_name(name) {
                    Some(st) => {
                        let id = st.id;
                        stations.add_alias(id, alias);
                    },
                    None => {
                        proof {
                            lemma_msn_prefix_err(all, line_num as int);
                        }
                        return Err(RailError {
                            kind: ErrorKind::InvalidData,
                            line: line_num,
                            reason: ErrorReason::UnknownStation { key: name.to_owned() },
                        });
                    },
                }
            }
        }
        proof {
            assert(lines_from(text@, pos as int) =~= Seq::<Seq<char>>::empty());
            assert(all.subrange(0, line_num as int) =~= all);
        }
        stations.by_tiploc = build_tiploc_index(&stations.stations);
        stations.by_crs = build_crs_index(&stations.stations);
        stations.by_name = build_name_index(&stations.stations);
        Ok(stations)
    }

    /// Merges a record into station `id`, which has its CRS code.
    fn merge_into(&mut self, id: usize, s: &Station)
        requires
            ids_match(old(self)@),
            old(self).all_ascii(),
            old(self).crs_unique(),
            id < old(self)@.len(),
            old(self)@[id as int].crs_code@ == s.crs_code@,
            forall|k: int| 0 <= k < s.names@.len() ==> (#[trigger] s.names@[k]).is_ascii(),
        ensures
            ids_match(final(self)@),
            final(self).all_ascii(),
            final(self).crs_unique(),
            final(self)@.len() == old(self)@.len(),
            models(final(self)@) == models(old(self)@).update(id as int, merged(models(old(self)@)[id as int], station_model(*s))),
    {
        let mut st = self.stations.remove(id);
        let ghost before = st;
        st.update_from_other(s);
        assert(texts(st.tiplocs@) =~= texts(before.tiplocs@) + texts(s.tiplocs@));
        self.stations.insert(id, st);
        proof {
            let old_s = old(self).stations@;
            assert(self.stations@ =~= old_s.update(id as int, st));
            assert(models(self@) =~= models(old(self)@).update(id as int, merged(models(old(self)@)[id as int], station_model(*s))));
            assert forall|i: int, k: int| 0 <= i < self.stations@.len() && 0 <= k < self.stations@[i].names@.len()
                implies (#[trigger] self.stations@[i].names@[k]).is_ascii() by {
                if i == id && k >= old_s[i].names@.len() {
                    let w = choose|w: int| 0 <= w < s.names@.len() && s.names@[w] == st.names@[k];
                }
            }
        }
    }

    /// Adds a station of a CRS code that no station has.
    fn add_new(&mut self, s: Station)
        requires
            ids_match(old(self)@),
            old(self).all_ascii(),
            old(self).crs_unique(),
            forall|i: int| 0 <= i < old(self)@.len() ==> (#[trigger] old(self)@[i]).crs_code@ != s.crs_code@,
            forall|k: int| 0 <= k < s.names@.len() ==> (#[trigger] s.names@[k]).is_ascii(),
        ensures
            ids_match(final(self)@),
            final(self).all_ascii(),
            final(self).crs_unique(),
            models(final(self)@) == models(old(self)@).push(station_model(s)),
    {
        let ghost orig = s;
        let mut s = s;
        s.id = self.stations.len();
        self.stations.push(s);
        proof {
            assert(models(self@) =~= models(old(self)@).push(station_model(orig)));
            let n = old(self)@.len();
            assert forall|i: int, k: int| 0 <= i < self.stations@.len() && 0 <= k < self.stations@[i].names@.len()
                implies (#[trigger] self.stations@[i].names@[k]).is_ascii() by {
                if i < n {
                    assert(self.stations@[i] == old(self).stations@[i]);
                    assert(old(self).stations@[i].names@[k].is_ascii());
                } else {
                    assert(i == n);
                    assert(self.stations@[i].names == orig.names);
                    assert(orig.names@[k].is_ascii());
                }
            }
            assert forall|i: int, j: int| 0 <= i < j < self@.len() implies (#[trigger] self@[i]).crs_code@
                != (#[trigger] self@[j]).crs_code@ by {
                if j == n {
                    assert(old(self)@[i] == self@[i]);
                } else {
                    assert(old(self)@[i] == self@[i] && old(self)@[j] == self@[j]);
                }
            }
        }
    }

    /// Adds an alias to the names of station `id`.
    fn add_alias(&mut self, id: usize, alias: &str)
        requires
            ids_match(old(self)@),
            old(self).all_ascii(),
            old(self).crs_unique(),
            id < old(self)@.len(),
            alias.is_ascii(),
        ensures
            ids_match(final(self)@),
            final(self).all_ascii(),
            final(self).crs_unique(),
            models(final(self)@) == models(old(self)@).update(id as int, with_alias(models(old(self)@)[id as int], alias@)),
    {
        let mut st = self.stations.remove(id);
        st.names.push(alias.to_owned());
        self.stations.insert(id, st);
        proof {
            let old_s = old(self).stations@;
            assert(self.stations@ =~= old_s.update(id as int, st));
            assert(texts(st.names@) =~= texts(old_s[id as int].names@).push(alias@));
            assert forall|i: int, k: int| 0 <= i < self.stations@.len() && 0 <= k < self.stations@[i].names@.len()
                implies (#[trigger] self.stations@[i].names@[k]).is_ascii() by {
                if i != id {
                    assert(self.stations@[i] == old_s[i]);
                } else if k < old_s[i].names@.len() {
                    assert(self.stations@[i].names@[k] == old_s[i].names@[k]);
                }
            }
            assert(models(self@) =~= models(old(self)@).update(id as int, with_alias(models(old(self)@)[id as int], alias@)));
        }
    }

    /// The number of stations.
    pub fn count(&self) -> (r: usize)
        ensures
            r == self@.len(),
    {
        self.stations.len()
    }

    /// Whether every name of every station is ASCII.
    pub open spec fn all_ascii(&self) -> bool {
        forall|i: int, k: int| 0 <= i < self@.len() && 0 <= k < self@[i].names@.len()
            ==> (#[trigger] self@[i].names@[k]).is_ascii()
    }
}

/// Whether `v` holds the text `t`.
pub fn find_text(v: &Vec<String>, t: &str) -> (r: bool)
    ensures
        r == has_text(v@, t@),
{
    let mut k: usize = 0;
    while k < v.len()
        invariant
            k <= v@.len(),
            forall|q: int| 0 <= q < k ==> (#[trigger] v@[q])@ != t@,
        decreases v@.len() - k,
    {
        if str_equal(v[k].as_str(), t) {
            return true;
        }
        k = k + 1;
    }
    false
}

} // verus!
