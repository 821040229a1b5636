use vstd::prelude::*;
use crate::bits::word_bit;
use crate::errors::ScheduleError;

verus! {

/// Minutes from midnight at which block 0 starts: 9:00.
pub const BLOCK_START: u32 = 540;

/// Minutes per occupancy block: one half hour.
pub const BLOCK_SIZE: u32 = 30;

/// One offered class: identity, descriptive fields, and its weekly occupancy
/// both as per-weekday interval lists and as per-weekday block masks.
#[derive(Clone, Debug)]
pub struct Subject {
    pub number: u32,
    pub code: String,
    pub class_num: u8,
    pub class_name: String,
    pub prof: String,
    pub credit: u8,
    pub time_place: String,
    pub place: Vec<String>,
    pub time_tuple: [Vec<(u32, u32)>; 5],
    pub time_bit: [u64; 5],
}

/// The mathematical image of a `Subject`.
pub struct SubjectV {
    pub number: u32,
    pub code: Seq<char>,
    pub class_num: u8,
    pub class_name: Seq<char>,
    pub prof: Seq<char>,
    pub credit: u8,
    pub time_place: Seq<char>,
    pub place: Seq<Seq<char>>,
    pub time_tuple: Seq<Seq<(u32, u32)>>,
    pub time_bit: Seq<u64>,
}

impl View for Subject {
    type V = SubjectV;

    open spec fn view(&self) -> SubjectV {
        SubjectV {
            number: self.number,
            code: self.code@,
            class_num: self.class_num,
            class_name: self.class_name@,
            prof: self.prof@,
            credit: self.credit,
            time_place: self.time_place@,
            place: self.place.deep_view(),
            time_tuple: self.time_tuple.deep_view(),
            time_bit: self.time_bit@,
        }
    }
}

impl DeepView for Subject {
    type V = SubjectV;

    open spec fn deep_view(&self) -> SubjectV {
        self.view()
    }
}

pub open spec fn spec_is_digit(c: char) -> bool {
    '0' <= c && c <= '9'
}

pub open spec fn digit_val(c: char) -> u32 {
    (c as u32 - 48) as u32
}

/// A time string is exactly two digits, a colon, and two digits.
pub open spec fn valid_time_str(s: Seq<char>) -> bool {
    &&& s.len() == 5
    &&& spec_is_digit(s[0])
    &&& spec_is_digit(s[1])
    &&& s[2] == ':'
    &&& spec_is_digit(s[3])
    &&& spec_is_digit(s[4])
}

/// The minute of day that a valid "hh:mm" string denotes.
pub open spec fn spec_time_num(s: Seq<char>) -> u32 {
    ((digit_val(s[0]) * 10 + digit_val(s[1])) * 60 + digit_val(s[3]) * 10 + digit_val(
        s[4],
    )) as u32
}

/// Turns an "hh:mm" string into its minute of day; rejects anything that is
/// not two digits, a colon, and two digits.
pub fn time_to_num(time_str: &str) -> (r: Result<u32, ScheduleError>)
    ensures
        valid_time_str(time_str@) ==> r == Ok::<u32, ScheduleError>(spec_time_num(time_str@)),
        !valid_time_str(time_str@) ==> r == Err::<u32, ScheduleError>(
            ScheduleError::BadTimeFormat,
        ),
{
    if time_str.unicode_len() != 5 {
        return Err(ScheduleError::BadTimeFormat);
    }
    let c0 = time_str.get_char(0);
    let c1 = time_str.get_char(1);
    let c2 = time_str.get_char(2);
    let c3 = time_str.get_char(3);
    let c4 = time_str.get_char(4);
    if '0' <= c0 && c0 <= '9' && '0' <= c1 && c1 <= '9' && c2 == ':' && '0' <= c3 && c3
        <= '9' && '0' <= c4 && c4 <= '9' {
        Ok(((c0 as u32 - 48) * 10 + (c1 as u32 - 48)) * 60 + (c3 as u32 - 48) * 10 + (
        c4 as u32 - 48))
    } else {
        Err(ScheduleError::BadTimeFormat)
    }
}

/// The mask of block indices in `[lo, hi)`.
pub open spec fn spec_interval_bits(lo: int, hi: int) -> u64
    decreases hi - lo,
{
    if hi <= lo {
        0u64
    } else {
        spec_interval_bits(lo, hi - 1) | (1u64 << ((hi - 1) as u64))
    }
}

/// An interval can be encoded when it lies inside the window of 64 half-hour
/// blocks that starts at 9:00.
pub open spec fn spec_valid_interval(start: u32, end: u32) -> bool {
    540 <= start && 540 <= end && end <= 2460
}

/// Encodes a `(start, end)` minute interval as the mask of the half-hour
/// blocks it covers, block `k` starting at minute `540 + 30 * k`.
pub fn time_to_bit(time_tuple: &(u32, u32)) -> (r: Result<u64, ScheduleError>)
    ensures
        spec_valid_interval(time_tuple.0, time_tuple.1) ==> r == Ok::<u64, ScheduleError>(
            spec_interval_bits(
                (time_tuple.0 - 540) as int / 30,
                (time_tuple.1 - 540) as int / 30,
            ),
        ),
        !spec_valid_interval(time_tuple.0, time_tuple.1) ==> r == Err::<u64, ScheduleError>(
            ScheduleError::IntervalOutOfRange,
        ),
{
    let (start, end) = *time_tuple;
    if !(540 <= start && 540 <= end && end <= 2460) {
        return Err(ScheduleError::IntervalOutOfRange);
    }
    let lo: u32 = (start - 540) / 30;
    let hi: u32 = (end - 540) / 30;
    let mut b: u64 = 0;
    let mut x: u32 = lo;
    while x < hi
        invariant
            lo <= x,
            x <= hi || x == lo,
            hi <= 64,
            b == spec_interval_bits(lo as int, x as int),
        decreases hi - x,
    {
        b = b | (1u64 << (x as u64));
        x = x + 1;
    }
    Ok(b)
}

/// Two weekly occupancy patterns conflict when they share an occupied block
/// on some weekday.
pub open spec fn spec_conflicts(a: Seq<u64>, b: Seq<u64>) -> bool {
    exists|i: int| 0 <= i < 5 && a[i] & b[i] != 0u64
}

/// Conflict is symmetric: two patterns share a block no matter which is
/// asked first.
pub proof fn lemma_conflicts_symmetric(a: Seq<u64>, b: Seq<u64>)
    ensures
        spec_conflicts(a, b) == spec_conflicts(b, a),
{
    if spec_conflicts(a, b) {
        let i = choose|i: int| 0 <= i < 5 && a[i] & b[i] != 0u64;
        let x = a[i];
        let y = b[i];
        assert(x & y == y & x) by (bit_vector);
        assert(b[i] & a[i] != 0u64);
    }
    if spec_conflicts(b, a) {
        let i = choose|i: int| 0 <= i < 5 && b[i] & a[i] != 0u64;
        let x = a[i];
        let y = b[i];
        assert(x & y == y & x) by (bit_vector);
        assert(a[i] & b[i] != 0u64);
    }
}

/// A pattern conflicts with itself exactly when it occupies any block at
/// all.
pub proof fn lemma_conflicts_self(a: Seq<u64>)
    ensures
        spec_conflicts(a, a) <==> (exists|i: int| 0 <= i < 5 && a[i] != 0u64),
{
    if spec_conflicts(a, a) {
        let i = choose|i: int| 0 <= i < 5 && a[i] & a[i] != 0u64;
        let x = a[i];
        assert(x & x == x) by (bit_vector);
        assert(a[i] != 0u64);
    }
    if exists|i: int| 0 <= i < 5 && a[i] != 0u64 {
        let i = choose|i: int| 0 <= i < 5 && a[i] != 0u64;
        let x = a[i];
        assert(x & x == x) by (bit_vector);
        assert(a[i] & a[i] != 0u64);
    }
}

/// Whether two weekly patterns share any occupied block, decided weekday-wise
/// as `(a | b) != (a ^ b)`.
pub fn is_conflict(a: &[u64; 5], b: &[u64; 5]) -> (r: bool)
    ensures
        r == spec_conflicts(a@, b@),
{
    let mut k = false;
    let mut i: usize = 0;
    while i < 5
        invariant
            i <= 5,
            k == exists|j: int| 0 <= j < i && a@[j] & b@[j] != 0u64,
        decreases 5 - i,
    {
        let x = a[i];
        let y = b[i];
        proof {
            crate::bits::lemma_or_xor_is_and(x, y);
        }
        if x | y != x ^ y {
            k = true;
        }
        i = i + 1;
    }
    k
}

/// Merges two weekly patterns into their union, or reports that they
/// conflict.
pub fn merge_time_bit(a: &[u64; 5], b: &[u64; 5]) -> (r: Option<[u64; 5]>)
    ensures
        r is Some <==> !spec_conflicts(a@, b@),
        r matches Some(m) ==> forall|i: int| 0 <= i < 5 ==> m@[i] == (a@[i] | b@[i]),
{
    let mut tmp: [u64; 5] = [0u64; 5];
    let mut i: usize = 0;
    while i < 5
        invariant
            i <= 5,
            forall|j: int| 0 <= j < i ==> a@[j] & b@[j] == 0u64,
            forall|j: int| 0 <= j < i ==> tmp@[j] == (a@[j] | b@[j]),
        decreases 5 - i,
    {
        let x = a[i];
        let y = b[i];
        proof {
            crate::bits::lemma_or_xor_is_and(x, y);
        }
        if x | y != x ^ y {
            return None;
        }
        tmp[i] = x | y;
        i = i + 1;
    }
    Some(tmp)
}

/// How many of the low `k` bits of `w` are set.
pub open spec fn spec_pop64(w: u64, k: int) -> nat
    decreases k,
{
    if k <= 0 {
        0
    } else {
        spec_pop64(w, k - 1) + (if word_bit(w, (k - 1) as u64) {
            1nat
        } else {
            0nat
        })
    }
}

/// The number of occupied blocks over the five weekdays of the first `i`
/// words of a pattern.
pub open spec fn spec_weight_prefix(p: Seq<u64>, i: int) -> nat
    decreases i,
{
    if i <= 0 {
        0
    } else {
        spec_weight_prefix(p, i - 1) + spec_pop64(p[i - 1], 64)
    }
}

/// The total number of occupied half-hour blocks of a weekly pattern.
pub open spec fn spec_weight(p: Seq<u64>) -> nat {
    spec_weight_prefix(p, 5)
}

/// Counts the occupied half-hour blocks of a weekly pattern.
pub fn hamming_weight(x: &[u64; 5]) -> (r: u32)
    ensures
        r == spec_weight(x@),
{
    let mut sum: u32 = 0;
    let mut i: usize = 0;
    while i < 5
        invariant
            i <= 5,
            sum == spec_weight_prefix(x@, i as int),
            sum <= 64 * i,
        decreases 5 - i,
    {
        let w = x[i];
        let mut c: u32 = 0;
        let mut k: u32 = 0;
        while k < 64
            invariant
                k <= 64,
                c == spec_pop64(w, k as int),
                c <= k,
            decreases 64 - k,
        {
            if (w >> (k as u64)) & 1u64 == 1u64 {
                c = c + 1;
            }
            k = k + 1;
        }
        sum = sum + c;
        i = i + 1;
    }
    sum
}

/// The digit character of a value below ten.
pub open spec fn digit_char(d: int) -> char {
    if d == 0 {
        '0'
    } else if d == 1 {
        '1'
    } else if d == 2 {
        '2'
    } else if d == 3 {
        '3'
    } else if d == 4 {
        '4'
    } else if d == 5 {
        '5'
    } else if d == 6 {
        '6'
    } else if d == 7 {
        '7'
    } else if d == 8 {
        '8'
    } else {
        '9'
    }
}

/// The decimal rendering of a nonnegative value, most significant digit
/// first.
pub open spec fn spec_dec_str(n: int) -> Seq<char>
    decreases n,
{
    if n < 10 {
        seq![digit_char(n)]
    } else {
        spec_dec_str(n / 10) + seq![digit_char(n % 10)]
    }
}

fn digit_str(d: u32) -> (r: &'static str)
    requires
        d < 10,
    ensures
        r@ =~= seq![digit_char(d as int)],
{
    proof {
        reveal_strlit("0");
        reveal_strlit("1");
        reveal_strlit("2");
        reveal_strlit("3");
        reveal_strlit("4");
        reveal_strlit("5");
        reveal_strlit("6");
        reveal_strlit("7");
        reveal_strlit("8");
        reveal_strlit("9");
    }
    match d {
        0 => "0",
        1 => "1",
        2 => "2",
        3 => "3",
        4 => "4",
        5 => "5",
        6 => "6",
        7 => "7",
        8 => "8",
        _ => "9",
    }
}

/// Renders a value in decimal.
pub fn u32_to_string(n: u32) -> (r: String)
    ensures
        r@ == spec_dec_str(n as int),
    decreases n,
{
    if n < 10 {
        let r = String::from_str(digit_str(n));
        proof {
            assert(r@ =~= spec_dec_str(n as int));
        }
        r
    } else {
        let mut s = u32_to_string(n / 10);
        s.append(digit_str(n % 10));
        proof {
            assert(s@ =~= spec_dec_str(n as int));
        }
        s
    }
}

/// The same characters with every space removed.
pub open spec fn spec_remove_spaces(s: Seq<char>) -> Seq<char>
    decreases s.len(),
{
    if s.len() == 0 {
        Seq::empty()
    } else if s.last() == ' ' {
        spec_remove_spaces(s.drop_last())
    } else {
        spec_remove_spaces(s.drop_last()).push(s.last())
    }
}

fn remove_spaces(s: &str) -> (r: String)
    ensures
        r@ == spec_remove_spaces(s@),
{
    let n = s.unicode_len();
    let mut out = String::new();
    let mut i: usize = 0;
    while i < n
        invariant
            i <= n,
            n == s@.len(),
            out@ == spec_remove_spaces(s@.take(i as int)),
        decreases n - i,
    {
        let c = s.get_char(i);
        if c != ' ' {
            out.append(s.substring_char(i, i + 1));
        }
        proof {
            assert(s@.take(i + 1).drop_last() =~= s@.take(i as int));
            assert(s@.take(i + 1).last() == s@[i as int]);
            if c != ' ' {
                assert(out@ =~= spec_remove_spaces(s@.take(i as int)).push(s@[i as int]));
            }
        }
        i = i + 1;
    }
    proof {
        assert(s@.take(s@.len() as int) =~= s@);
    }
    out
}

/// One interval rendered as `[start,end]`.
pub open spec fn spec_interval_str(t: (u32, u32)) -> Seq<char> {
    "["@ + spec_dec_str(t.0 as int) + ","@ + spec_dec_str(t.1 as int) + "]"@
}

/// The first `i` intervals of a weekday, joined with commas.
pub open spec fn spec_intervals_str(ts: Seq<(u32, u32)>, i: int) -> Seq<char>
    decreases i,
{
    if i <= 0 {
        Seq::empty()
    } else if i == 1 {
        spec_interval_str(ts[0])
    } else {
        spec_intervals_str(ts, i - 1) + ","@ + spec_interval_str(ts[i - 1])
    }
}

/// The schedule letter of a weekday slot.
pub open spec fn spec_day_name(d: int) -> Seq<char> {
    if d == 0 {
        "월"@
    } else if d == 1 {
        "화"@
    } else if d == 2 {
        "수"@
    } else if d == 3 {
        "목"@
    } else {
        "금"@
    }
}

/// One weekday's entry: the quoted day letter and its interval list.
pub open spec fn spec_day_entry(tt: Seq<Seq<(u32, u32)>>, d: int) -> Seq<char> {
    "\""@ + spec_day_name(d) + "\":["@ + spec_intervals_str(tt[d], tt[d].len() as int)
        + "]"@
}

/// The entries of the first `d` weekdays that have any interval, joined
/// with commas.
pub open spec fn spec_time_entries(tt: Seq<Seq<(u32, u32)>>, d: int) -> Seq<char>
    decreases d,
{
    if d <= 0 {
        Seq::empty()
    } else {
        let prev = spec_time_entries(tt, d - 1);
        if tt[d - 1].len() == 0 {
            prev
        } else if prev.len() == 0 {
            spec_day_entry(tt, d - 1)
        } else {
            prev + ","@ + spec_day_entry(tt, d - 1)
        }
    }
}

/// The whole weekly schedule as one object of per-day interval lists.
pub open spec fn spec_time_json(tt: Seq<Seq<(u32, u32)>>) -> Seq<char> {
    "{"@ + spec_time_entries(tt, 5) + "}"@
}

/// The first `i` rooms, each quoted with its spaces removed, joined with
/// commas.
pub open spec fn spec_places_items(ps: Seq<Seq<char>>, i: int) -> Seq<char>
    decreases i,
{
    if i <= 0 {
        Seq::empty()
    } else if i == 1 {
        "\""@ + spec_remove_spaces(ps[0]) + "\""@
    } else {
        spec_places_items(ps, i - 1) + ","@ + "\""@ + spec_remove_spaces(ps[i - 1])
            + "\""@
    }
}

/// The room list as one array of quoted names.
pub open spec fn spec_places_json(ps: Seq<Seq<char>>) -> Seq<char> {
    "["@ + spec_places_items(ps, ps.len() as int) + "]"@
}

/// The compact array rendering of one catalog entry, as `to_array` builds
/// it.
pub open spec fn spec_to_array(s: SubjectV) -> Seq<char> {
    "["@ + spec_dec_str(s.number - 1) + ",\""@ + s.code + "\","@ + spec_dec_str(
        s.class_num as int,
    ) + ",\""@ + s.class_name + "\",\""@ + s.prof + "\","@ + spec_dec_str(s.credit as int)
        + ","@ + spec_places_json(s.place) + ","@ + spec_time_json(s.time_tuple) + "]"@
}

/// A nonempty day entry is never the empty string.
proof fn lemma_day_entry_nonempty(tt: Seq<Seq<(u32, u32)>>, d: int)
    ensures
        spec_day_entry(tt, d).len() > 0,
{
    reveal_strlit("\"");
}

fn day_name(d: usize) -> (r: &'static str)
    requires
        d < 5,
    ensures
        r@ == spec_day_name(d as int),
{
    match d {
        0 => "월",
        1 => "화",
        2 => "수",
        3 => "목",
        _ => "금",
    }
}

/// The whole body list as one array of compact entries.
pub open spec fn spec_body_items(ss: Seq<SubjectV>, i: int) -> Seq<char>
    decreases i,
{
    if i <= 0 {
        Seq::empty()
    } else if i == 1 {
        spec_to_array(ss[0])
    } else {
        spec_body_items(ss, i - 1) + ","@ + spec_to_array(ss[i - 1])
    }
}

/// The whole catalog as one object: the body array and the fixed table
/// header.
pub open spec fn spec_zipped_json(ss: Seq<SubjectV>) -> Seq<char> {
    "{\"body\":["@ + spec_body_items(ss, ss.len() as int)
        + "],\"head\":[\"No\",\"과목번호\",\"분반\",\"교과목명\",\"담당교수\",\"학점\",\"강의실\",\"시간\"]}"@
}

impl Subject {
    /// Renders this entry as the compact array `spec_to_array` describes:
    /// its zero-based number, quoted code, class number, quoted name and
    /// professor, credit, room array, and per-day schedule object.
    #[verifier::loop_isolation(false)]
    pub fn to_array(&self) -> (r: String)
        requires
            self.number >= 1,
        ensures
            r@ == spec_to_array(self@),
    {
        let mut time_string = String::from_str("{");
        let mut first = true;
        let mut d: usize = 0;
        while d < 5
            invariant
                d <= 5,
                time_string@ == "{"@ + spec_time_entries(self@.time_tuple, d as int),
                first <==> spec_time_entries(self@.time_tuple, d as int).len() == 0,
            decreases 5 - d,
        {
            let ts = &self.time_tuple[d];
            proof {
                assert(ts.deep_view() =~= ts@);
                assert(self@.time_tuple[d as int] == ts.deep_view());
            }
            if ts.len() > 0 {
                let mut ivs = String::new();
                let mut idx: usize = 0;
                while idx < ts.len()
                    invariant
                        idx <= ts@.len(),
                        ivs@ == spec_intervals_str(ts@, idx as int),
                    decreases ts@.len() - idx,
                {
                    if idx > 0 {
                        ivs.append(",");
                    }
                    ivs.append("[");
                    ivs.append(u32_to_string(ts[idx].0).as_str());
                    ivs.append(",");
                    ivs.append(u32_to_string(ts[idx].1).as_str());
                    ivs.append("]");
                    proof {
                        assert(ivs@ =~= spec_intervals_str(ts@, idx + 1));
                    }
                    idx = idx + 1;
                }
                let mut entry = String::from_str("\"");
                entry.append(day_name(d));
                entry.append("\":[");
                entry.append(ivs.as_str());
                entry.append("]");
                proof {
                    assert(entry@ =~= spec_day_entry(self@.time_tuple, d as int));
                    lemma_day_entry_nonempty(self@.time_tuple, d as int);
                }
                if !first {
                    time_string.append(",");
                }
                time_string.append(entry.as_str());
                first = false;
                proof {
                    assert(time_string@ =~= "{"@ + spec_time_entries(
                        self@.time_tuple,
                        d + 1,
                    ));
                }
            }
            d = d + 1;
        }
        time_string.append("}");
        proof {
            assert(time_string@ =~= spec_time_json(self@.time_tuple));
        }
        let mut place_string = String::from_str("[");
        let mut p: usize = 0;
        while p < self.place.len()
            invariant
                p <= self.place@.len(),
                place_string@ == "["@ + spec_places_items(self@.place, p as int),
            decreases self.place@.len() - p,
        {
            proof {
                assert(self@.place[p as int] == self.place@[p as int]@);
            }
            if p > 0 {
                place_string.append(",");
            }
            place_string.append("\"");
            let cleaned = remove_spaces(self.place[p].as_str());
            place_string.append(cleaned.as_str());
            place_string.append("\"");
            proof {
                assert(place_string@ =~= "["@ + spec_places_items(self@.place, p + 1));
            }
            p = p + 1;
        }
        place_string.append("]");
        proof {
            assert(place_string@ =~= spec_places_json(self@.place));
        }
        let mut out = String::from_str("[");
        out.append(u32_to_string(self.number - 1).as_str());
        out.append(",\"");
        out.append(self.code.as_str());
        out.append("\",");
        out.append(u32_to_string(self.class_num as u32).as_str());
        out.append(",\"");
        out.append(self.class_name.as_str());
        out.append("\",\"");
        out.append(self.prof.as_str());
        out.append("\",");
        out.append(u32_to_string(self.credit as u32).as_str());
        out.append(",");
        out.append(place_string.as_str());
        out.append(",");
        out.append(time_string.as_str());
        out.append("]");
        proof {
            assert(out@ =~= spec_to_array(self@));
        }
        out
    }

    /// Renders a whole catalog as the body-and-header object
    /// `spec_zipped_json` describes.
    #[verifier::loop_isolation(false)]
    pub fn zipped_json(subjects: &Vec<Subject>) -> (r: String)
        requires
            forall|i: int|
                0 <= i < subjects@.len() ==> (#[trigger] subjects@[i])@.number >= 1,
        ensures
            r@ == spec_zipped_json(subjects.deep_view()),
    {
        let mut out = String::from_str("{\"body\":[");
        let mut i: usize = 0;
        while i < subjects.len()
            invariant
                i <= subjects@.len(),
                out@ == "{\"body\":["@ + spec_body_items(
                    subjects.deep_view(),
                    i as int,
                ),
            decreases subjects@.len() - i,
        {
            proof {
                assert(subjects.deep_view()[i as int] == subjects@[i as int]@);
            }
            if i > 0 {
                out.append(",");
            }
            let piece = subjects[i].to_array();
            out.append(piece.as_str());
            proof {
                assert(out@ =~= "{\"body\":["@ + spec_body_items(
                    subjects.deep_view(),
                    i + 1,
                ));
            }
            i = i + 1;
        }
        out.append(
            "],\"head\":[\"No\",\"과목번호\",\"분반\",\"교과목명\",\"담당교수\",\"학점\",\"강의실\",\"시간\"]}",
        );
        proof {
            assert(out@ =~= spec_zipped_json(subjects.deep_view()));
        }
        out
    }
}

/// What the schedule-text matcher extracts from a raw schedule string: one
/// (weekday letter, start time, end time, room) tuple per recognized
/// fragment, a function of the text alone.
pub uninterp spec fn schedule_fragments(s: Seq<char>) -> Seq<(char, Seq<char>, Seq<char>, Seq<char>)>;

/// Relies on `regex::Regex::captures_iter` with the fixed weekday-time-room
/// pattern; which fragments it finds, and their capture groups, depend on the
/// input text alone.
#[verifier::external_body]
fn capture_fragments(s: &str) -> (r: Vec<(char, String, String, String)>)
    ensures
        r@.len() == schedule_fragments(s@).len(),
        forall|i: int|
            0 <= i < r@.len() ==> {
                &&& r@[i].0 == schedule_fragments(s@)[i].0
                &&& r@[i].1@ == schedule_fragments(s@)[i].1
                &&& r@[i].2@ == schedule_fragments(s@)[i].2
                &&& r@[i].3@ == schedule_fragments(s@)[i].3
            },
{
    let re = regex::Regex::new(
        r"([월화수목금토일])+(\w{2}:\w{2})-(\w{2}:\w{2})\((\w{2}\s?-\s?\w*)\)",
    ).unwrap();
    re.captures_iter(s).map(
        |c|
            (
                c[1].chars().next().unwrap(),
                c[2].to_string(),
                c[3].to_string(),
                c[4].to_string(),
            ),
    ).collect()
}

/// The weekday slot of a schedule letter: Monday through Friday take slots 0
/// through 4; Saturday, Sunday and anything else take none, intentionally,
/// since no weekday column exists for them.
pub open spec fn spec_weekday(c: char) -> Option<int> {
    if c == '월' {
        Some(0int)
    } else if c == '화' {
        Some(1int)
    } else if c == '수' {
        Some(2int)
    } else if c == '목' {
        Some(3int)
    } else if c == '금' {
        Some(4int)
    } else {
        None
    }
}

fn weekday_index(c: char) -> (r: Option<usize>)
    ensures
        r is Some <==> spec_weekday(c) is Some,
        r matches Some(d) ==> spec_weekday(c) == Some(d as int) && d < 5,
{
    match c {
        '월' => Some(0),
        '화' => Some(1),
        '수' => Some(2),
        '목' => Some(3),
        '금' => Some(4),
        _ => None,
    }
}

/// The occupancy that a prefix of schedule fragments builds up: rooms in
/// order of appearance, and per-weekday interval lists and block masks.
pub struct OccupancyV {
    pub places: Seq<Seq<char>>,
    pub intervals: Seq<Seq<(u32, u32)>>,
    pub bits: Seq<u64>,
}

pub open spec fn occ_init() -> OccupancyV {
    OccupancyV {
        places: Seq::empty(),
        intervals: Seq::new(5, |i: int| Seq::empty()),
        bits: Seq::new(5, |i: int| 0u64),
    }
}

/// Folds one fragment into the occupancy: the room is always recorded; a
/// malformed time or interval rejects the whole string; a weekday fragment
/// whose blocks are already occupied on that weekday reveals overlapping
/// source intervals and also rejects it.
pub open spec fn occ_step(o: OccupancyV, f: (char, Seq<char>, Seq<char>, Seq<char>)) -> Result<
    OccupancyV,
    ScheduleError,
> {
    let o1 = OccupancyV { places: o.places.push(f.3), intervals: o.intervals, bits: o.bits };
    if !(valid_time_str(f.1) && valid_time_str(f.2)) {
        Err(ScheduleError::BadTimeFormat)
    } else {
        let t0 = spec_time_num(f.1);
        let t1 = spec_time_num(f.2);
        if !spec_valid_interval(t0, t1) {
            Err(ScheduleError::IntervalOutOfRange)
        } else {
            let bit = spec_interval_bits((t0 - 540) as int / 30, (t1 - 540) as int / 30);
            match spec_weekday(f.0) {
                None => Ok(o1),
                Some(d) => {
                    if o.bits[d] & bit != 0u64 {
                        Err(ScheduleError::OverlappingIntervals)
                    } else {
                        Ok(
                            OccupancyV {
                                places: o1.places,
                                intervals: o.intervals.update(d, o.intervals[d].push((t0, t1))),
                                bits: o.bits.update(d, o.bits[d] | bit),
                            },
                        )
                    }
                },
            }
        }
    }
}

pub open spec fn occ_fold(
    fs: Seq<(char, Seq<char>, Seq<char>, Seq<char>)>,
    i: int,
) -> Result<OccupancyV, ScheduleError>
    decreases i,
{
    if i <= 0 {
        Ok(occ_init())
    } else {
        match occ_fold(fs, i - 1) {
            Err(e) => Err(e),
            Ok(o) => occ_step(o, fs[i - 1]),
        }
    }
}

/// The occupancy that a whole raw schedule string denotes.
pub open spec fn spec_occupancy(s: Seq<char>) -> Result<OccupancyV, ScheduleError> {
    occ_fold(schedule_fragments(s), schedule_fragments(s).len() as int)
}

/// Once a prefix of the fold has failed, every longer prefix fails the same
/// way.
proof fn lemma_occ_fold_err_persists(
    fs: Seq<(char, Seq<char>, Seq<char>, Seq<char>)>,
    i: int,
    j: int,
)
    requires
        0 <= i <= j,
        occ_fold(fs, i) is Err,
    ensures
        occ_fold(fs, j) == occ_fold(fs, i),
    decreases j - i,
{
    if j > i {
        lemma_occ_fold_err_persists(fs, i, j - 1);
    }
}

/// Whether an executable occupancy triple is the image of a mathematical one.
pub open spec fn occ_matches(
    v: (Vec<String>, [Vec<(u32, u32)>; 5], [u64; 5]),
    o: OccupancyV,
) -> bool {
    &&& v.0.deep_view() == o.places
    &&& v.1.deep_view() == o.intervals
    &&& v.2@ == o.bits
}

/// Parses a raw schedule string into room names, per-weekday interval lists,
/// and per-weekday block masks, as `spec_occupancy` describes.
#[verifier::loop_isolation(false)]
#[verifier::rlimit(100)]
#[verifier::spinoff_prover]
pub fn time_and_place(time_place_str: &str) -> (r: Result<
    (Vec<String>, [Vec<(u32, u32)>; 5], [u64; 5]),
    ScheduleError,
>)
    ensures
        match (r, spec_occupancy(time_place_str@)) {
            (Ok(v), Ok(o)) => occ_matches(v, o),
            (Err(e1), Err(e2)) => e1 == e2,
            _ => false,
        },
{
    let frags = capture_fragments(time_place_str);
    let ghost fs = schedule_fragments(time_place_str@);
    let mut place: Vec<String> = Vec::new();
    let mut t0: Vec<(u32, u32)> = Vec::new();
    let mut t1: Vec<(u32, u32)> = Vec::new();
    let mut t2: Vec<(u32, u32)> = Vec::new();
    let mut t3: Vec<(u32, u32)> = Vec::new();
    let mut t4: Vec<(u32, u32)> = Vec::new();
    let mut bits: [u64; 5] = [0u64; 5];
    let mut i: usize = 0;
    while i < frags.len()
        invariant
            i <= frags.len(),
            frags@.len() == fs.len(),
            forall|j: int|
                0 <= j < fs.len() ==> {
                    &&& frags@[j].0 == fs[j].0
                    &&& frags@[j].1@ == fs[j].1
                    &&& frags@[j].2@ == fs[j].2
                    &&& frags@[j].3@ == fs[j].3
                },
            occ_fold(fs, i as int) matches Ok(o) && place.deep_view() =~~= o.places
                && o.intervals =~~= seq![t0.deep_view(), t1.deep_view(), t2.deep_view(), t3.deep_view(), t4.deep_view()]
                && bits@ =~= o.bits,
        decreases frags.len() - i,
    {
        let ghost o_prev = occ_fold(fs, i as int)->Ok_0;
        let ghost frag = fs[i as int];
        place.push(frags[i].3.clone());
        let st = match time_to_num(frags[i].1.as_str()) {
            Ok(v) => v,
            Err(e) => {
                proof {
                    assert(occ_fold(fs, i + 1) == occ_step(o_prev, frag));
                    lemma_occ_fold_err_persists(fs, i + 1, fs.len() as int);
                }
                return Err(e);
            },
        };
        let en = match time_to_num(frags[i].2.as_str()) {
            Ok(v) => v,
            Err(e) => {
                proof {
                    assert(occ_fold(fs, i + 1) == occ_step(o_prev, frag));
                    lemma_occ_fold_err_persists(fs, i + 1, fs.len() as int);
                }
                return Err(e);
            },
        };
        let bit = match time_to_bit(&(st, en)) {
            Ok(v) => v,
            Err(e) => {
                proof {
                    assert(occ_fold(fs, i + 1) == occ_step(o_prev, frag));
                    lemma_occ_fold_err_persists(fs, i + 1, fs.len() as int);
                }
                return Err(e);
            },
        };
        match weekday_index(frags[i].0) {
            None => {},
            Some(d) => {
                if bits[d] & bit != 0u64 {
                    proof {
                        assert(occ_fold(fs, i + 1) == occ_step(o_prev, frag));
                        lemma_occ_fold_err_persists(fs, i + 1, fs.len() as int);
                    }
                    return Err(ScheduleError::OverlappingIntervals);
                }
                if d == 0 {
                    t0.push((st, en));
                } else if d == 1 {
                    t1.push((st, en));
                } else if d == 2 {
                    t2.push((st, en));
                } else if d == 3 {
                    t3.push((st, en));
                } else {
                    t4.push((st, en));
                }
                bits[d] = bits[d] | bit;
            },
        }
        i = i + 1;
        proof {
            assert(occ_fold(fs, i as int) == occ_step(o_prev, frag));
            let o = occ_fold(fs, i as int)->Ok_0;
            assert(place.deep_view() =~~= o.places);
            assert(bits@ =~= o.bits);
            assert(o.intervals =~~= seq![t0.deep_view(), t1.deep_view(), t2.deep_view(), t3.deep_view(), t4.deep_view()]);
        }
    }
    let tt: [Vec<(u32, u32)>; 5] = [t0, t1, t2, t3, t4];
    proof {
        let o = occ_fold(fs, fs.len() as int)->Ok_0;
        assert(tt.deep_view() =~~= seq![tt@[0].deep_view(), tt@[1].deep_view(), tt@[2].deep_view(), tt@[3].deep_view(), tt@[4].deep_view()]);
        assert(occ_matches((place, tt, bits), o));
    }
    Ok((place, tt, bits))
}

/// Builds one catalog entry from its descriptive fields and raw schedule
/// text; rejects the entry when the schedule text is malformed or its own
/// intervals overlap.
impl Subject {
    pub fn new(
        number: u32,
        code: String,
        class_num: u8,
        class_name: String,
        prof: String,
        credit: u8,
        time_place: String,
    ) -> (r: Result<Subject, ScheduleError>)
        ensures
            match (r, spec_occupancy(time_place@)) {
                (Ok(s), Ok(o)) => {
                    &&& s@.number == number
                    &&& s@.code == code@
                    &&& s@.class_num == class_num
                    &&& s@.class_name == class_name@
                    &&& s@.prof == prof@
                    &&& s@.credit == credit
                    &&& s@.time_place == time_place@
                    &&& s@.place == o.places
                    &&& s@.time_tuple == o.intervals
                    &&& s@.time_bit == o.bits
                },
                (Err(e1), Err(e2)) => e1 == e2,
                _ => false,
            },
    {
        let (place, time, bits) = match time_and_place(time_place.as_str()) {
            Ok(v) => v,
            Err(e) => {
                return Err(e);
            },
        };
        Ok(
            Subject {
                number,
                code,
                class_num,
                class_name,
                prof,
                credit,
                time_place,
                place,
                time_tuple: time,
                time_bit: bits,
            },
        )
    }
}

} // verus!
