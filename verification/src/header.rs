//! The textual object-header grammar: signature ("name <email> seconds
//! timezone") and hex-id fields, parsed from raw bytes.

use vstd::prelude::*;
use vstd::slice::slice_subrange;

verus! {

/// Why a header field failed to parse.
#[derive(Debug)]
pub enum ParseError {
    /// The structural grammar did not match.
    Malformed,
    /// A numeric field did not parse as an integer.
    InvalidInteger,
}

/// The direction of a timezone offset.
#[derive(Copy, Clone, Debug, PartialEq, Eq, Structural)]
pub enum Sign {
    Plus,
    Minus,
}

/// A timestamp: seconds since the epoch and a timezone offset.
pub struct Time {
    /// Seconds since the unix epoch.
    pub time: u32,
    /// The timezone offset in seconds, negative for western timezones.
    pub offset: i32,
    /// The sign the offset was written with.
    pub sign: Sign,
}

/// An actor signature as it appears in an object header, borrowing the
/// name and email from the parsed input.
pub struct Signature<'a> {
    pub name: &'a [u8],
    pub email: &'a [u8],
    pub time: Time,
}

/// Whether `pat` occurs in `s` at position `k`.
pub open spec fn occurs_at(s: Seq<u8>, pat: Seq<u8>, k: int) -> bool {
    0 <= k && k + pat.len() <= s.len() && s.subrange(k, k + pat.len() as int) == pat
}

/// The first position at or after `k` where `pat` occurs.
pub open spec fn first_occ_from(s: Seq<u8>, pat: Seq<u8>, k: int) -> Option<int>
    decreases s.len() - k,
{
    if pat.len() == 0 || k < 0 || k + pat.len() > s.len() {
        None
    } else if occurs_at(s, pat, k) {
        Some(k)
    } else {
        first_occ_from(s, pat, k + 1)
    }
}

/// The first position where `pat` occurs in `s`.
pub open spec fn first_occ(s: Seq<u8>, pat: Seq<u8>) -> Option<int> {
    first_occ_from(s, pat, 0)
}

pub proof fn lemma_first_occ_from(s: Seq<u8>, pat: Seq<u8>, k: int)
    requires
        0 <= k,
        pat.len() > 0,
    ensures
        match first_occ_from(s, pat, k) {
            Some(j) => k <= j && occurs_at(s, pat, j) && forall|m: int|
                k <= m < j ==> !occurs_at(s, pat, m),
            None => forall|m: int| k <= m ==> !occurs_at(s, pat, m),
        },
    decreases s.len() - k,
{
    if pat.len() > 0 && k + pat.len() <= s.len() && !occurs_at(s, pat, k) {
        lemma_first_occ_from(s, pat, k + 1);
    }
}

/// Whether `b` is an ASCII decimal digit.
pub open spec fn is_ascii_digit(b: u8) -> bool {
    48 <= b <= 57
}

/// Whether every byte of `s` is an ASCII decimal digit.
pub open spec fn all_digits(s: Seq<u8>) -> bool {
    forall|k: int| 0 <= k < s.len() ==> is_ascii_digit(#[trigger] s[k])
}

/// The integer a run of decimal digit bytes denotes.
pub open spec fn dec_value(s: Seq<u8>) -> int
    decreases s.len(),
{
    if s.len() == 0 {
        0
    } else {
        dec_value(s.drop_last()) * 10 + (s.last() - 48)
    }
}

/// A digit-prefix of a digit run never exceeds the whole run's value.
pub proof fn lemma_dec_prefix_le(s: Seq<u8>, j: int)
    requires
        0 <= j <= s.len(),
        dec_value(s.subrange(0, j)) >= 0,
        forall|k: int| j <= k < s.len() ==> is_ascii_digit(#[trigger] s[k]),
    ensures
        dec_value(s.subrange(0, j)) <= dec_value(s),
    decreases s.len() - j,
{
    if j == s.len() {
        assert(s.subrange(0, j) =~= s);
    } else {
        assert(s.subrange(0, j + 1).drop_last() =~= s.subrange(0, j));
        assert(s.subrange(0, j + 1).last() == s[j]);
        assert(is_ascii_digit(s[j]));
        lemma_dec_prefix_le(s, j + 1);
    }
}

pub proof fn lemma_dec_two_digits(s: Seq<u8>)
    requires
        s.len() == 2,
    ensures
        dec_value(s) == (s[0] - 48) * 10 + (s[1] - 48),
{
    assert(s.drop_last() =~= seq![s[0]]);
    assert(seq![s[0]].drop_last() =~= Seq::<u8>::empty());
    assert(dec_value(Seq::<u8>::empty()) == 0);
    assert(seq![s[0]].last() == s[0]);
    assert(dec_value(seq![s[0]]) == (s[0] - 48));
}

/// Find the first occurrence of the two-byte pattern `[a, b]`.
fn find_pair(s: &[u8], a: u8, b: u8) -> (r: Option<usize>)
    ensures
        match r {
            Some(j) => first_occ(s@, seq![a, b]) == Some(j as int),
            None => first_occ(s@, seq![a, b]) is None,
        },
{
    let ghost pat = seq![a, b];
    let n = s.len();
    if n < 2 {
        proof {
            assert(first_occ_from(s@, pat, 0) is None);
        }
        return None;
    }
    let mut k: usize = 0;
    while k <= n - 2
        invariant
            n == s@.len(),
            n >= 2,
            k <= n - 1,
            first_occ(s@, pat) == first_occ_from(s@, pat, k as int),
            pat == seq![a, b],
        decreases n - k,
    {
        let hit = s[k] == a && s[k + 1] == b;
        proof {
            assert(s@.subrange(k as int, k as int + 2)[0] == s@[k as int]);
            assert(s@.subrange(k as int, k as int + 2)[1] == s@[k as int + 1]);
            if hit {
                assert(s@.subrange(k as int, k as int + 2) =~= pat);
            }
        }
        if hit {
            return Some(k);
        }
        k += 1;
        proof {
            assert(first_occ_from(s@, pat, k - 1) == first_occ_from(s@, pat, k as int));
        }
    }
    proof {
        assert(first_occ_from(s@, pat, k as int) is None);
    }
    None
}

/// Find the first occurrence of the byte `a`.
fn find_byte(s: &[u8], a: u8) -> (r: Option<usize>)
    ensures
        match r {
            Some(j) => first_occ(s@, seq![a]) == Some(j as int),
            None => first_occ(s@, seq![a]) is None,
        },
{
    find_byte_from(s, a, 0)
}

/// Find the first occurrence of the byte `a` at or after position `from`.
fn find_byte_from(s: &[u8], a: u8, from: usize) -> (r: Option<usize>)
    ensures
        match r {
            Some(j) => from <= j && first_occ_from(s@, seq![a], from as int) == Some(j as int),
            None => first_occ_from(s@, seq![a], from as int) is None,
        },
{
    let ghost pat = seq![a];
    let n = s.len();
    if from > n {
        proof {
            assert(first_occ_from(s@, pat, from as int) is None);
        }
        return None;
    }
    let mut k: usize = from;
    while k < n
        invariant
            n == s@.len(),
            from <= k <= n,
            first_occ_from(s@, pat, from as int) == first_occ_from(s@, pat, k as int),
            pat == seq![a],
        decreases n - k,
    {
        let hit = s[k] == a;
        proof {
            assert(s@.subrange(k as int, k as int + 1)[0] == s@[k as int]);
            if hit {
                assert(s@.subrange(k as int, k as int + 1) =~= pat);
            }
        }
        if hit {
            return Some(k);
        }
        k += 1;
        proof {
            assert(first_occ_from(s@, pat, k - 1) == first_occ_from(s@, pat, k as int));
        }
    }
    proof {
        assert(first_occ_from(s@, pat, k as int) is None);
    }
    None
}

/// Parse a nonempty run of decimal digits as a `u32`, exactly when the
/// whole input is digits and the value fits.
pub fn parse_decimal_u32(s: &[u8]) -> (r: Option<u32>)
    ensures
        match r {
            Some(v) => s@.len() > 0 && all_digits(s@) && v as int == dec_value(s@),
            None => s@.len() == 0 || !all_digits(s@) || dec_value(s@) > u32::MAX,
        },
{
    let n = s.len();
    if n == 0 {
        return None;
    }
    let mut acc: u32 = 0;
    let mut j: usize = 0;
    while j < n
        invariant
            j <= n,
            n == s@.len(),
            n > 0,
            forall|k: int| 0 <= k < j ==> is_ascii_digit(#[trigger] s@[k]),
            acc as int == dec_value(s@.subrange(0, j as int)),
        decreases n - j,
    {
        let c = s[j];
        if !(c >= 48 && c <= 57) {
            return None;
        }
        let wide: u64 = acc as u64 * 10 + (c - 48) as u64;
        proof {
            assert(s@.subrange(0, j + 1).drop_last() =~= s@.subrange(0, j as int));
            assert(s@.subrange(0, j + 1).last() == s@[j as int]);
        }
        if wide > u32::MAX as u64 {
            proof {
                if all_digits(s@) {
                    lemma_dec_prefix_le(s@, j + 1);
                }
            }
            return None;
        }
        acc = wide as u32;
        j += 1;
    }
    proof {
        assert(s@.subrange(0, n as int) =~= s@);
    }
    Some(acc)
}

/// Whether `b` is a lower-case hexadecimal digit.
pub open spec fn is_hex_digit_lc_spec(b: u8) -> bool {
    is_ascii_digit(b) || (97 <= b <= 102)
}

pub fn is_hex_digit_lc(b: u8) -> (r: bool)
    ensures
        r == is_hex_digit_lc_spec(b),
{
    (b >= 48 && b <= 57) || (b >= 97 && b <= 102)
}

/// Parse exactly 40 lower-case hex digits — a hex-encoded SHA-1 id —
/// returning the remaining input and the digit bytes.
pub fn parse_hex_sha1<'a>(i: &'a [u8]) -> (r: Result<(&'a [u8], &'a [u8]), ParseError>)
    ensures
        match r {
            Ok(o) => ({
                let (rest, hex) = o;
                &&& i@.len() >= 40
                &&& (forall|k: int| 0 <= k < 40 ==> is_hex_digit_lc_spec(#[trigger] i@[k]))
                &&& hex@ == i@.subrange(0, 40)
                &&& rest@ == i@.subrange(40, i@.len() as int)
            }),
            Err(e) => (e matches ParseError::Malformed) && (i@.len() < 40 || exists|k: int|
                0 <= k < 40 && !is_hex_digit_lc_spec(#[trigger] i@[k])),
        },
{
    if i.len() < 40 {
        return Err(ParseError::Malformed);
    }
    let mut k: usize = 0;
    while k < 40
        invariant
            k <= 40,
            i@.len() >= 40,
            forall|m: int| 0 <= m < k ==> is_hex_digit_lc_spec(#[trigger] i@[m]),
        decreases 40 - k,
    {
        if !is_hex_digit_lc(i[k]) {
            return Err(ParseError::Malformed);
        }
        k += 1;
    }
    let hex = slice_subrange(i, 0, 40);
    let rest = slice_subrange(i, 40, i.len());
    Ok((rest, hex))
}

/// How a well-formed signature input splits:
/// `name ++ " <" ++ email ++ "> " ++ seconds ++ " " ++ sign ++ HH ++ MM ++ rest`,
/// each delimiter the first of its kind in what follows.
pub struct SignatureShape {
    pub name: Seq<u8>,
    pub email: Seq<u8>,
    pub seconds: Seq<u8>,
    pub sign_byte: u8,
    pub hours: Seq<u8>,
    pub minutes: Seq<u8>,
    pub rest: Seq<u8>,
}

/// Split `s` along the signature grammar's delimiters, if they all occur.
pub open spec fn split_signature(s: Seq<u8>) -> Option<SignatureShape> {
    match first_occ(s, seq![32u8, 60u8]) {
        Some(n1) => {
            let rest1 = s.subrange(n1 + 2, s.len() as int);
            match first_occ(rest1, seq![62u8, 32u8]) {
                Some(n2) => {
                    let rest2 = rest1.subrange(n2 + 2, rest1.len() as int);
                    match first_occ(rest2, seq![32u8]) {
                        Some(n3) => {
                            let rest3 = rest2.subrange(n3 + 1, rest2.len() as int);
                            if rest3.len() >= 5 {
                                Some(
                                    SignatureShape {
                                        name: s.subrange(0, n1),
                                        email: rest1.subrange(0, n2),
                                        seconds: rest2.subrange(0, n3),
                                        sign_byte: rest3[0],
                                        hours: rest3.subrange(1, 3),
                                        minutes: rest3.subrange(3, 5),
                                        rest: rest3.subrange(5, rest3.len() as int),
                                    },
                                )
                            } else {
                                None
                            }
                        },
                        None => None,
                    }
                },
                None => None,
            }
        },
        None => None,
    }
}

/// The structural part of the grammar: delimiters, a `+` or `-` sign, and
/// two two-digit timezone fields.
pub open spec fn structure_ok(s: Seq<u8>) -> bool {
    match split_signature(s) {
        Some(sh) => (sh.sign_byte == 43 || sh.sign_byte == 45) && all_digits(sh.hours)
            && all_digits(sh.minutes),
        None => false,
    }
}

/// The numeric part: the seconds field is a nonempty digit run whose
/// value fits a `u32`.
pub open spec fn seconds_ok(s: Seq<u8>) -> bool {
    match split_signature(s) {
        Some(sh) => sh.seconds.len() > 0 && all_digits(sh.seconds) && dec_value(sh.seconds)
            <= u32::MAX,
        None => false,
    }
}

/// A signature parses exactly when both parts hold.
pub open spec fn signature_ok(s: Seq<u8>) -> bool {
    structure_ok(s) && seconds_ok(s)
}

/// Parse an actor signature, `name <email> seconds-since-epoch +HHMM`,
/// returning the remaining input and the parsed value.
pub fn parse_signature<'a>(i: &'a [u8]) -> (r: Result<(&'a [u8], Signature<'a>), ParseError>)
    ensures
        match r {
            Ok(o) => ({
                let (rest, sig) = o;
                &&& signature_ok(i@)
                &&& (match split_signature(i@) {
                    Some(sh) => {
                        &&& sig.name@ == sh.name
                        &&& sig.email@ == sh.email
                        &&& sig.time.time as int == dec_value(sh.seconds)
                        &&& sig.time.sign == (if sh.sign_byte == 45 {
                            Sign::Minus
                        } else {
                            Sign::Plus
                        })
                        &&& sig.time.offset as int == (dec_value(sh.hours) * 3600 + dec_value(
                            sh.minutes,
                        ) * 60) * (if sh.sign_byte == 45 {
                            -1
                        } else {
                            1
                        })
                        &&& rest@ == sh.rest
                    },
                    None => false,
                })
            }),
            Err(e) => {
                &&& !signature_ok(i@)
                &&& (e matches ParseError::Malformed <==> !structure_ok(i@))
                &&& (e matches ParseError::InvalidInteger <==> (structure_ok(i@) && !seconds_ok(
                    i@,
                )))
            },
        },
{
    let ghost s = i@;
    let n1 = match find_pair(i, 32, 60) {
        Some(k) => k,
        None => {
            return Err(ParseError::Malformed);
        },
    };
    proof {
        lemma_first_occ_from(s, seq![32u8, 60u8], 0);
        assert(occurs_at(s, seq![32u8, 60u8], n1 as int));
        assert(n1 + 2 <= s.len());
    }
    let name = slice_subrange(i, 0, n1);
    let i_len = i.len();
    let rest1 = slice_subrange(i, n1 + 2, i_len);
    let n2 = match find_pair(rest1, 62, 32) {
        Some(k) => k,
        None => {
            return Err(ParseError::Malformed);
        },
    };
    proof {
        lemma_first_occ_from(rest1@, seq![62u8, 32u8], 0);
    }
    let email = slice_subrange(rest1, 0, n2);
    let rest1_len = rest1.len();
    let rest2 = slice_subrange(rest1, n2 + 2, rest1_len);
    let n3 = match find_byte(rest2, 32) {
        Some(k) => k,
        None => {
            return Err(ParseError::Malformed);
        },
    };
    proof {
        lemma_first_occ_from(rest2@, seq![32u8], 0);
    }
    let seconds = slice_subrange(rest2, 0, n3);
    let rest2_len = rest2.len();
    let rest3 = slice_subrange(rest2, n3 + 1, rest2_len);
    if rest3.len() < 5 {
        return Err(ParseError::Malformed);
    }
    let ghost sh = split_signature(s).unwrap();
    proof {
        assert(sh.name == name@);
        assert(sh.email == email@);
        assert(sh.seconds == seconds@);
        assert(sh.sign_byte == rest3@[0]);
        assert(sh.hours == rest3@.subrange(1, 3));
        assert(sh.minutes == rest3@.subrange(3, 5));
        assert(sh.rest == rest3@.subrange(5, rest3@.len() as int));
    }
    let sign_byte = rest3[0];
    if !(sign_byte == 43 || sign_byte == 45) {
        return Err(ParseError::Malformed);
    }
    let c1 = rest3[1];
    let c2 = rest3[2];
    let c3 = rest3[3];
    let c4 = rest3[4];
    proof {
        assert(sh.hours[0] == rest3@[1] && sh.hours[1] == rest3@[2]);
        assert(sh.minutes[0] == rest3@[3] && sh.minutes[1] == rest3@[4]);
    }
    if !(c1 >= 48 && c1 <= 57 && c2 >= 48 && c2 <= 57) {
        proof {
            assert(!all_digits(sh.hours));
        }
        return Err(ParseError::Malformed);
    }
    if !(c3 >= 48 && c3 <= 57 && c4 >= 48 && c4 <= 57) {
        proof {
            assert(!all_digits(sh.minutes));
        }
        return Err(ParseError::Malformed);
    }
    proof {
        assert forall|k: int| 0 <= k < sh.hours.len() implies is_ascii_digit(
            #[trigger] sh.hours[k],
        ) by {
            if k == 0 {
                assert(sh.hours[0] == c1);
            } else {
                assert(sh.hours[1] == c2);
            }
        }
        assert forall|k: int| 0 <= k < sh.minutes.len() implies is_ascii_digit(
            #[trigger] sh.minutes[k],
        ) by {
            if k == 0 {
                assert(sh.minutes[0] == c3);
            } else {
                assert(sh.minutes[1] == c4);
            }
        }
        assert(structure_ok(s));
    }
    let seconds_value = match parse_decimal_u32(seconds) {
        Some(v) => v,
        None => {
            return Err(ParseError::InvalidInteger);
        },
    };
    let hours_value: u32 = (c1 - 48) as u32 * 10 + (c2 - 48) as u32;
    let minutes_value: u32 = (c3 - 48) as u32 * 10 + (c4 - 48) as u32;
    proof {
        lemma_dec_two_digits(sh.hours);
        lemma_dec_two_digits(sh.minutes);
    }
    let magnitude: u32 = hours_value * 3600 + minutes_value * 60;
    let sign = if sign_byte == 45 {
        Sign::Minus
    } else {
        Sign::Plus
    };
    let offset: i32 = if sign_byte == 45 {
        -(magnitude as i32)
    } else {
        magnitude as i32
    };
    let rest = slice_subrange(rest3, 5, rest3.len());
    proof {
        assert(signature_ok(s));
        assert(seconds_value as int == dec_value(sh.seconds));
        assert(hours_value as int == dec_value(sh.hours));
        assert(minutes_value as int == dec_value(sh.minutes));
        assert(hours_value <= 99 && minutes_value <= 99);
        assert(magnitude <= 362340);
        assert(magnitude as i32 as int == magnitude as int);
        assert(magnitude as int == dec_value(sh.hours) * 3600 + dec_value(sh.minutes) * 60);
        assert(rest@ == sh.rest);
        assert(name@ == sh.name && email@ == sh.email);
        if sign_byte == 45 {
            assert(offset as int == -(magnitude as int));
            assert(offset as int == (dec_value(sh.hours) * 3600 + dec_value(sh.minutes) * 60) * -1);
        } else {
            assert(offset as int == magnitude as int);
            assert(offset as int == (dec_value(sh.hours) * 3600 + dec_value(sh.minutes) * 60) * 1);
        }
    }
    Ok((rest, Signature { name, email, time: Time { time: seconds_value, offset, sign } }))
}

/// Whether `i` opens with `name` followed by one space.
pub open spec fn header_prefix_ok(i: Seq<u8>, name: Seq<u8>) -> bool {
    &&& i.len() >= name.len() + 1
    &&& i.subrange(0, name.len() as int) == name
    &&& i[name.len() as int] == 32
}

/// Strip `name` and the following space, handing back what follows.
fn strip_prefix_space<'a>(i: &'a [u8], name: &[u8]) -> (r: Option<&'a [u8]>)
    ensures
        match r {
            Some(t) => header_prefix_ok(i@, name@) && t@ == i@.subrange(
                name@.len() as int + 1,
                i@.len() as int,
            ),
            None => !header_prefix_ok(i@, name@),
        },
{
    let i_len = i.len();
    let name_len = name.len();
    if name_len >= i_len {
        return None;
    }
    let mut k: usize = 0;
    while k < name_len
        invariant
            k <= name_len,
            name_len == name@.len(),
            i@.len() >= name_len + 1,
            forall|m: int| 0 <= m < k ==> i@[m] == name@[m],
        decreases name_len - k,
    {
        if i[k] != name[k] {
            proof {
                assert(i@.subrange(0, name@.len() as int)[k as int] == i@[k as int]);
            }
            return None;
        }
        k += 1;
    }
    if i[name_len] != 32 {
        proof {
            assert(i@.subrange(0, name@.len() as int) =~= name@);
        }
        return None;
    }
    proof {
        assert(i@.subrange(0, name@.len() as int) =~= name@);
    }
    Some(slice_subrange(i, name_len + 1, i_len))
}

/// One continuation line at position `p`: a space, anything up to the
/// next newline, and that newline; the position just past it, if the
/// line is well formed.
pub open spec fn cont_step(t: Seq<u8>, p: int) -> Option<int> {
    if 0 <= p < t.len() && t[p] == 32 {
        match first_occ_from(t, seq![10u8], p + 1) {
            Some(q) => Some(q + 1),
            None => None,
        }
    } else {
        None
    }
}

/// Greedily consume continuation lines from `p`; the position after the
/// last one.
pub open spec fn cont_run(t: Seq<u8>, p: int) -> int
    decreases t.len() - p,
{
    match cont_step(t, p) {
        Some(q) => if p < q <= t.len() {
            cont_run(t, q)
        } else {
            p
        },
        None => p,
    }
}

pub proof fn lemma_cont_run_bounds(t: Seq<u8>, p: int)
    requires
        0 <= p <= t.len(),
    ensures
        p <= cont_run(t, p) <= t.len(),
    decreases t.len() - p,
{
    match cont_step(t, p) {
        Some(q) => {
            if p < q <= t.len() {
                lemma_cont_run_bounds(t, q);
            }
        },
        None => {},
    }
}

/// How a multiline header field splits: after `name` and a space, a
/// nonempty first line up to a newline, then one or more continuation
/// lines, each a space followed by text and a newline. The value is the
/// whole region from the first line through the last newline.
pub open spec fn multiline_split(i: Seq<u8>, name: Seq<u8>) -> Option<(Seq<u8>, Seq<u8>)> {
    if header_prefix_ok(i, name) {
        let t = i.subrange(name.len() as int + 1, i.len() as int);
        match first_occ(t, seq![10u8]) {
            Some(j1) => {
                if j1 >= 1 && cont_step(t, j1 + 1) is Some {
                    let end = cont_run(t, j1 + 1);
                    Some((t.subrange(0, end), t.subrange(end, t.len() as int)))
                } else {
                    None
                }
            },
            None => None,
        }
    } else {
        None
    }
}

/// Parse a multiline header field named `name`: its first line plus all
/// its space-led continuation lines, returning the remaining input and
/// the raw multiline value.
pub fn parse_header_field_multiline<'a>(i: &'a [u8], name: &[u8]) -> (r: Result<
    (&'a [u8], &'a [u8]),
    ParseError,
>)
    ensures
        match r {
            Ok(o) => ({
                let (rest, value) = o;
                match multiline_split(i@, name@) {
                    Some(pair) => value@ == pair.0 && rest@ == pair.1,
                    None => false,
                }
            }),
            Err(e) => (e matches ParseError::Malformed) && multiline_split(i@, name@) is None,
        },
{
    let t = match strip_prefix_space(i, name) {
        Some(t) => t,
        None => {
            return Err(ParseError::Malformed);
        },
    };
    let tn = t.len();
    let j1 = match find_byte(t, 10) {
        Some(j) => j,
        None => {
            return Err(ParseError::Malformed);
        },
    };
    proof {
        lemma_first_occ_from(t@, seq![10u8], 0);
    }
    if j1 < 1 {
        return Err(ParseError::Malformed);
    }
    let ghost p1: int = j1 as int + 1;
    let mut p: usize = j1 + 1;
    let mut started = false;
    let mut done = false;
    while !done
        invariant
            tn == t@.len(),
            0 <= p <= tn,
            header_prefix_ok(i@, name@),
            t@ == i@.subrange(name@.len() as int + 1, i@.len() as int),
            first_occ(t@, seq![10u8]) == Some(j1 as int),
            1 <= j1,
            p1 == j1 + 1,
            started ==> cont_step(t@, p1) is Some,
            started ==> cont_run(t@, p1) == cont_run(t@, p as int),
            !started ==> p == p1,
            !started ==> !done,
            done ==> cont_step(t@, p as int) is None,
        decreases tn - p, (if done {
            0int
        } else {
            1int
        }), (if started {
            0int
        } else {
            1int
        }),
    {
        let mut stepped = false;
        if p < tn {
            if t[p] == 32 {
                match find_byte_from(t, 10, p + 1) {
                    Some(q) => {
                        proof {
                            lemma_first_occ_from(t@, seq![10u8], p as int + 1);
                            assert(occurs_at(t@, seq![10u8], q as int));
                            assert(q + 1 <= t@.len());
                            assert(cont_step(t@, p as int) == Some(q + 1int));
                        }
                        if !started {
                            proof {
                                assert(cont_run(t@, p1) == cont_run(t@, q + 1int));
                            }
                        } else {
                            proof {
                                assert(cont_run(t@, p as int) == cont_run(t@, q + 1int));
                            }
                        }
                        p = q + 1;
                        started = true;
                        stepped = true;
                    },
                    None => {},
                }
            }
        }
        if !stepped {
            proof {
                assert(cont_step(t@, p as int) is None);
            }
            if !started {
                proof {
                    assert(header_prefix_ok(i@, name@));
                    assert(t@ == i@.subrange(name@.len() as int + 1, i@.len() as int));
                    assert(first_occ(t@, seq![10u8]) == Some(j1 as int));
                    assert(p == j1 + 1);
                    assert(cont_step(t@, j1 + 1) is None);
                    assert(multiline_split(i@, name@) is None);
                }
                return Err(ParseError::Malformed);
            }
            done = true;
        }
    }
    proof {
        assert(cont_run(t@, p as int) == p);
        lemma_cont_run_bounds(t@, p1);
    }
    let value = slice_subrange(t, 0, p);
    let rest = slice_subrange(t, p, tn);
    Ok((rest, value))
}

/// Parse a single-line header field named `name`, handing the bytes after
/// `name ` to `parse_value` and expecting a newline right after what it
/// consumed. An error from `parse_value` is passed through unchanged.
pub fn parse_header_field<'a, T, F: Fn(&'a [u8]) -> Result<(&'a [u8], T), ParseError>>(
    i: &'a [u8],
    name: &[u8],
    parse_value: F,
) -> (r: Result<(&'a [u8], T), ParseError>)
    requires
        forall|x: &'a [u8]| #[trigger] call_requires(parse_value, (x,)),
    ensures
        !header_prefix_ok(i@, name@) ==> (r matches Err(e) && e matches ParseError::Malformed),
        header_prefix_ok(i@, name@) ==> (exists|
            mid: &'a [u8],
            inner: Result<(&'a [u8], T), ParseError>,
        |
            {
                &&& mid@ == i@.subrange(name@.len() as int + 1, i@.len() as int)
                &&& #[trigger] call_ensures(parse_value, (mid,), inner)
                &&& match inner {
                    Ok(p) => {
                        let (after, v) = p;
                        if after@.len() >= 1 && after@[0] == 10 {
                            r matches Ok(q) && q.1 == v && q.0@ == after@.subrange(
                                1,
                                after@.len() as int,
                            )
                        } else {
                            r matches Err(e) && e matches ParseError::Malformed
                        }
                    },
                    Err(e0) => r matches Err(e1) && e1 == e0,
                }
            }),
{
    let mid = match strip_prefix_space(i, name) {
        Some(t) => t,
        None => {
            return Err(ParseError::Malformed);
        },
    };
    let r0 = parse_value(mid);
    let ghost inner = r0;
    match r0 {
        Ok(pair) => {
            let (after, v) = pair;
            let after_len = after.len();
            if after_len >= 1 {
                let nl = after[0];
                if nl == 10 {
                    let rest = slice_subrange(after, 1, after_len);
                    return Ok((rest, v));
                }
            }
            Err(ParseError::Malformed)
        },
        Err(e) => Err(e),
    }
}

} // verus!
