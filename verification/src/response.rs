use vstd::prelude::*;
use crate::errors::ScheduleError;
use crate::subject::{spec_is_digit, digit_val, spec_occupancy, Subject, SubjectV};

verus! {

/// One record of the registrar's catalog response, with the raw field names
/// the registrar uses.
#[allow(non_snake_case)]
pub struct ResponseUnit {
    pub ORGN_CLSF_NM: String,
    pub ASGN_SUST_NM: String,
    pub SBJT_NM: String,
    pub CPTN_NM: String,
    pub SBJT_DETA_NM: String,
    pub LT_PRAC_NM: String,
    pub SBJT_FELD_NM: String,
    pub FELD_DETA_NM: String,
    pub MRKS_APPR_MTHD_NM: String,
    pub MRKS_GV_MTHD_NM: String,
    pub PNT: String,
    pub THEO_TMCNT: String,
    pub PRAC_TMCNT: String,
    pub PROF_NM: String,
    pub PROF_NO: String,
    pub OPEN_CORS_NM: String,
    pub SBJT_NO: String,
    pub CLSS_NO: String,
    pub ORGN_CLSF_DCD: String,
    pub SHYY: String,
    pub SHTM_DCD: String,
    pub ASGN_SUST_CD: String,
    pub ASGN_CORS_DCD: String,
    pub TLSN_TIME: Option<String>,
    pub LECPLN_CNT: u32,
    pub RNUM: u32,
}

/// A whole registrar catalog response.
pub struct SubjectResponse {
    pub page: String,
    pub total: u32,
    pub records: String,
    pub user: Vec<ResponseUnit>,
}

/// Whether every character of `s` is a decimal digit.
pub open spec fn spec_all_digits(s: Seq<char>) -> bool {
    forall|i: int| 0 <= i < s.len() ==> spec_is_digit(#[trigger] s[i])
}

/// The value of a digit string, most significant digit first.
pub open spec fn spec_dec_val(s: Seq<char>) -> int
    decreases s.len(),
{
    if s.len() == 0 {
        0
    } else {
        spec_dec_val(s.drop_last()) * 10 + digit_val(s.last())
    }
}

/// The value of a longer digit prefix never shrinks.
proof fn lemma_dec_val_grows(s: Seq<char>, i: int, j: int)
    requires
        0 <= i <= j <= s.len(),
    ensures
        spec_dec_val(s.take(i)) <= spec_dec_val(s.take(j)),
        spec_dec_val(s.take(i)) >= 0,
    decreases j - i, i,
{
    if i > 0 && i == j {
        lemma_dec_val_grows(s, i - 1, i - 1);
        assert(s.take(i).drop_last() =~= s.take(i - 1));
    } else if i < j {
        lemma_dec_val_grows(s, i, j - 1);
        lemma_dec_val_grows(s, j - 1, j - 1);
        assert(s.take(j).drop_last() =~= s.take(j - 1));
    }
}

/// Parses an unsigned decimal of at most one byte: rejects empty strings,
/// non-digits, and values above 255.
pub fn parse_u8_decimal(s: &str) -> (r: Result<u8, ScheduleError>)
    ensures
        (s@.len() >= 1 && spec_all_digits(s@) && spec_dec_val(s@) <= 255) ==> r
            == Ok::<u8, ScheduleError>(spec_dec_val(s@) as u8),
        !(s@.len() >= 1 && spec_all_digits(s@) && spec_dec_val(s@) <= 255) ==> r
            == Err::<u8, ScheduleError>(ScheduleError::BadNumber),
{
    let n = s.unicode_len();
    if n == 0 {
        return Err(ScheduleError::BadNumber);
    }
    let mut acc: u32 = 0;
    let mut i: usize = 0;
    while i < n
        invariant
            i <= n,
            n == s@.len(),
            acc == spec_dec_val(s@.take(i as int)),
            acc <= 255,
            forall|j: int| 0 <= j < i ==> spec_is_digit(#[trigger] s@[j]),
        decreases n - i,
    {
        let c = s.get_char(i);
        if !('0' <= c && c <= '9') {
            return Err(ScheduleError::BadNumber);
        }
        let d = (c as u32) - 48;
        acc = acc * 10 + d;
        proof {
            assert(s@.take(i + 1).drop_last() =~= s@.take(i as int));
            assert(s@.take(i + 1).last() == s@[i as int]);
        }
        if acc > 255 {
            proof {
                lemma_dec_val_grows(s@, i + 1, s@.len() as int);
                assert(s@.take(s@.len() as int) =~= s@);
            }
            return Err(ScheduleError::BadNumber);
        }
        i = i + 1;
    }
    proof {
        assert(s@.take(s@.len() as int) =~= s@);
    }
    Ok(acc as u8)
}

/// Where the first dot of `s` sits, or the length when there is none.
pub open spec fn spec_first_dot(s: Seq<char>) -> int
    decreases s.len(),
{
    if s.len() == 0 {
        0
    } else if s[0] == '.' {
        0
    } else {
        1 + spec_first_dot(s.drop_first())
    }
}

proof fn lemma_first_dot_at(s: Seq<char>, i: int)
    requires
        0 <= i <= s.len(),
        forall|j: int| 0 <= j < i ==> (#[trigger] s[j]) != '.',
        i < s.len() ==> s[i] == '.',
    ensures
        spec_first_dot(s) == i,
    decreases s.len(),
{
    if s.len() > 0 && i > 0 {
        assert forall|j: int| 0 <= j < i - 1 implies (#[trigger] s.drop_first()[j])
            != '.' by {
            assert(s.drop_first()[j] == s[j + 1]);
        }
        if i < s.len() {
            assert(s.drop_first()[i - 1] == s[i]);
        }
        lemma_first_dot_at(s.drop_first(), i - 1);
    }
}

/// Whether `s` is a plain unsigned decimal with an optional fraction:
/// digits, optionally followed by a dot and more digits.
pub open spec fn spec_valid_decimal(s: Seq<char>) -> bool {
    &&& spec_first_dot(s) >= 1
    &&& spec_all_digits(s.take(spec_first_dot(s)))
    &&& (spec_first_dot(s) < s.len() ==> spec_all_digits(
        s.skip(spec_first_dot(s) + 1),
    ))
}

/// The whole-number part of such a decimal, clamped to one byte as a
/// narrowing cast would clamp it.
pub open spec fn spec_credit_val(s: Seq<char>) -> u8 {
    if spec_dec_val(s.take(spec_first_dot(s))) > 255 {
        255u8
    } else {
        spec_dec_val(s.take(spec_first_dot(s))) as u8
    }
}

/// Parses a credit count written as a decimal with an optional fraction,
/// keeping the whole-number part and clamping it to one byte.
#[verifier::loop_isolation(false)]
pub fn parse_credit(s: &str) -> (r: Result<u8, ScheduleError>)
    ensures
        spec_valid_decimal(s@) ==> r == Ok::<u8, ScheduleError>(spec_credit_val(s@)),
        !spec_valid_decimal(s@) ==> r == Err::<u8, ScheduleError>(ScheduleError::BadNumber),
{
    let n = s.unicode_len();
    let mut dot: usize = n;
    let mut i: usize = 0;
    while i < n
        invariant
            i <= n,
            dot <= n,
            n == s@.len(),
            dot == n ==> forall|j: int| 0 <= j < i ==> (#[trigger] s@[j]) != '.',
            dot < n ==> dot < i && s@[dot as int] == '.' && forall|j: int|
                0 <= j < dot ==> (#[trigger] s@[j]) != '.',
        decreases n - i,
    {
        if dot == n {
            if s.get_char(i) == '.' {
                dot = i;
            }
        }
        i = i + 1;
    }
    proof {
        lemma_first_dot_at(s@, dot as int);
    }
    if dot == 0 {
        return Err(ScheduleError::BadNumber);
    }
    let mut acc: u32 = 0;
    let mut w: usize = 0;
    let mut clamped = false;
    while w < dot
        invariant
            w <= dot <= n,
            n == s@.len(),
            dot as int == spec_first_dot(s@),
            forall|j: int| 0 <= j < w ==> spec_is_digit(#[trigger] s@[j]),
            !clamped ==> acc == spec_dec_val(s@.take(w as int)) && acc <= 255,
            clamped ==> spec_dec_val(s@.take(w as int)) > 255,
        decreases dot - w,
    {
        let c = s.get_char(w);
        if !('0' <= c && c <= '9') {
            proof {
                assert(s@.take(dot as int)[w as int] == s@[w as int]);
                assert(!spec_all_digits(s@.take(dot as int)));
            }
            return Err(ScheduleError::BadNumber);
        }
        proof {
            assert(s@.take(w + 1).drop_last() =~= s@.take(w as int));
            assert(s@.take(w + 1).last() == s@[w as int]);
            if clamped {
                lemma_dec_val_grows(s@, w as int, w + 1);
            }
        }
        if !clamped {
            let d = (c as u32) - 48;
            acc = acc * 10 + d;
            if acc > 255 {
                clamped = true;
            }
        }
        w = w + 1;
    }
    if dot < n {
        let mut f: usize = dot + 1;
        while f < n
            invariant
                dot + 1 <= f <= n,
                n == s@.len(),
                forall|j: int| dot + 1 <= j < f ==> spec_is_digit(#[trigger] s@[j]),
            decreases n - f,
        {
            let c = s.get_char(f);
            if !('0' <= c && c <= '9') {
                proof {
                    assert(s@.skip(dot + 1)[f - dot - 1] == s@[f as int]);
                    assert(!spec_all_digits(s@.skip(dot + 1)));
                }
                return Err(ScheduleError::BadNumber);
            }
            f = f + 1;
        }
        proof {
            assert forall|j: int| 0 <= j < s@.skip(dot + 1).len() implies spec_is_digit(
                #[trigger] s@.skip(dot + 1)[j],
            ) by {
                assert(s@.skip(dot + 1)[j] == s@[j + dot + 1]);
            }
        }
    }
    proof {
        if dot == n {
            assert(s@.take(dot as int) =~= s@);
        }
    }
    if clamped {
        Ok(255)
    } else {
        Ok(acc as u8)
    }
}

/// The schedule text of a record: its raw schedule field, or empty when the
/// registrar sent none.
pub open spec fn spec_tlsn(t: Option<String>) -> Seq<char> {
    match t {
        Some(s) => s@,
        None => Seq::empty(),
    }
}

/// Whether a registrar record parses into a catalog entry: a byte-sized
/// class number, a decimal credit, and well-formed schedule text.
pub open spec fn unit_parses(u: ResponseUnit) -> bool {
    &&& u.CLSS_NO@.len() >= 1 && spec_all_digits(u.CLSS_NO@) && spec_dec_val(u.CLSS_NO@)
        <= 255
    &&& spec_valid_decimal(u.PNT@)
    &&& spec_occupancy(spec_tlsn(u.TLSN_TIME)) is Ok
}

/// Whether `s` is the catalog entry that record `u` denotes.
pub open spec fn unit_subject(u: ResponseUnit, s: SubjectV) -> bool {
    &&& s.number == u.RNUM
    &&& s.code == u.SBJT_NO@
    &&& s.class_num == spec_dec_val(u.CLSS_NO@) as u8
    &&& s.class_name == u.SBJT_NM@
    &&& s.prof == u.PROF_NM@
    &&& s.credit == spec_credit_val(u.PNT@)
    &&& s.time_place == spec_tlsn(u.TLSN_TIME)
    &&& spec_occupancy(spec_tlsn(u.TLSN_TIME)) matches Ok(o) && s.place == o.places
        && s.time_tuple == o.intervals && s.time_bit == o.bits
}

impl ResponseUnit {
    /// Turns one registrar record into a catalog entry: the class number
    /// must be a byte-sized decimal, the credit a decimal with an optional
    /// fraction, and the schedule text well formed.
    pub fn to_subject(self) -> (r: Result<Subject, ScheduleError>)
        ensures
            r is Ok <==> unit_parses(self),
            r matches Ok(s) ==> unit_subject(self, s@),
            r matches Err(e) ==> {
                if !(self.CLSS_NO@.len() >= 1 && spec_all_digits(self.CLSS_NO@)
                    && spec_dec_val(self.CLSS_NO@) <= 255) {
                    e == ScheduleError::BadNumber
                } else if !spec_valid_decimal(self.PNT@) {
                    e == ScheduleError::BadNumber
                } else {
                    spec_occupancy(spec_tlsn(self.TLSN_TIME)) == Err::<
                        crate::subject::OccupancyV,
                        ScheduleError,
                    >(e)
                }
            },
    {
        let class_num = match parse_u8_decimal(self.CLSS_NO.as_str()) {
            Ok(v) => v,
            Err(e) => {
                return Err(e);
            },
        };
        let credit = match parse_credit(self.PNT.as_str()) {
            Ok(v) => v,
            Err(e) => {
                return Err(e);
            },
        };
        let time_place = match self.TLSN_TIME {
            Some(t) => t,
            None => String::new(),
        };
        proof {
            assert(time_place@ == spec_tlsn(self.TLSN_TIME));
        }
        Subject::new(
            self.RNUM,
            self.SBJT_NO,
            class_num,
            self.SBJT_NM,
            self.PROF_NM,
            credit,
            time_place,
        )
    }
}

/// Whether `s` is the parsed image of record `u`.
pub open spec fn unit_matches(u: ResponseUnit, s: Subject) -> bool {
    unit_parses(u) && unit_subject(u, s@)
}

/// The catalog built so far mirrors, record by record, the response prefix
/// it came from.
pub open spec fn prefix_ok(gu: Seq<ResponseUnit>, out: Seq<Subject>) -> bool {
    forall|i: int| 0 <= i < out.len() ==> unit_matches(gu[i], #[trigger] out[i])
}

impl SubjectResponse {
    /// Turns a whole response into the catalog, in order, rejecting it at
    /// the first malformed record.
    #[verifier::loop_isolation(false)]
    #[verifier::rlimit(100)]
    #[verifier::spinoff_prover]
    pub fn to_subject_vector(self) -> (r: Result<Vec<Subject>, ScheduleError>)
        ensures
            r matches Ok(v) ==> v@.len() == self.user@.len() && forall|i: int|
                0 <= i < v@.len() ==> unit_matches(self.user@[i], #[trigger] v@[i]),
            r is Err ==> exists|i: int|
                0 <= i < self.user@.len() && !unit_parses(#[trigger] self.user@[i]),
    {
        let ghost gu = self.user@;
        let mut units = self.user;
        let mut out: Vec<Subject> = Vec::new();
        while units.len() > 0
            invariant
                out@.len() + units@.len() == gu.len(),
                units@ =~= gu.skip(out@.len() as int),
                prefix_ok(gu, out@),
            decreases units.len(),
        {
            let ghost done = out@.len() as int;
            let u = units.remove(0);
            proof {
                assert(u == gu[done]);
                assert(units@ =~= gu.skip(done + 1));
            }
            let ghost oldout = out@;
            match u.to_subject() {
                Ok(s) => {
                    proof {
                        assert(unit_parses(u));
                        assert(unit_subject(u, s@));
                        assert(unit_parses(gu[done]));
                        assert(unit_subject(gu[done], s@));
                    }
                    out.push(s);
                    proof {
                        assert forall|i: int| 0 <= i < out@.len() implies unit_matches(
                            gu[i],
                            #[trigger] out@[i],
                        ) by {
                            if i < done {
                                assert(out@[i] == oldout[i]);
                                assert(unit_matches(gu[i], oldout[i]));
                            } else {
                                assert(out@[i] == s);
                                assert(unit_matches(gu[done], s));
                            }
                        }
                    }
                },
                Err(e) => {
                    proof {
                        assert(!unit_parses(gu[done]));
                    }
                    return Err(e);
                },
            }
        }
        proof {
            assert forall|i: int| 0 <= i < out@.len() implies unit_matches(
                self.user@[i],
                #[trigger] out@[i],
            ) by {
                assert(unit_matches(gu[i], out@[i]));
            }
        }
        Ok(out)
    }
}

} // verus!
