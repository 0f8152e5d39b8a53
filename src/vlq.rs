//! Base64 variable-length-quantity decoding.
use vstd::prelude::*;

verus! {

/// Why a mapping string could not be decoded.
#[derive(Clone, Copy, Debug, PartialEq, Eq, Structural)]
pub enum DecodeError {
    /// A character outside the base64 alphabet `[A-Za-z0-9+/]`.
    InvalidCharacter(char),
    /// A value whose last digit still has its continuation bit set.
    Truncated,
    /// A value or running total too large to be a position or an index.
    OutOfRange,
}

/// The largest unsigned value (sign bit included) that a value may carry:
/// `u32::MAX`. Any number of digits may spell it; only the value is bounded.
pub const VLQ_MAX_RAW: u64 = 4294967295;

/// Every decoded value lies strictly between `-VLQ_BOUND` and `VLQ_BOUND`.
pub const VLQ_BOUND: i64 = 2147483648;

/// Bit set in a digit that is followed by another digit of the same value.
pub const VLQ_CONTINUATION_BIT: u32 = 32;

/// The 6-bit value of a base64 character, if it is one.
pub open spec fn base64_digit(c: char) -> Option<u32> {
    let n = c as u32;
    if 65 <= n <= 90 {
        Some((n - 65) as u32)
    } else if 97 <= n <= 122 {
        Some((n - 97 + 26) as u32)
    } else if 48 <= n <= 57 {
        Some((n - 48 + 52) as u32)
    } else if n == 43 {
        Some(62u32)
    } else if n == 47 {
        Some(63u32)
    } else {
        None
    }
}

/// The data bits of the digit at `i` (zero for a non-digit).
pub open spec fn digit_data(s: Seq<char>, i: int) -> int {
    match base64_digit(s[i]) {
        Some(d) => (d % 32) as int,
        None => 0,
    }
}

/// Scans one value starting at `i`: the index just past its last digit.
pub open spec fn vlq_scan(s: Seq<char>, i: int) -> Result<int, DecodeError>
    decreases s.len() - i,
{
    if i < 0 || i >= s.len() {
        Err(DecodeError::Truncated)
    } else {
        match base64_digit(s[i]) {
            None => Err(DecodeError::InvalidCharacter(s[i])),
            Some(d) => if d < 32 {
                Ok(i + 1)
            } else {
                vlq_scan(s, i + 1)
            },
        }
    }
}

/// The unsigned value of the digits in `[i, e)`, least significant group first.
pub open spec fn vlq_raw(s: Seq<char>, i: int, e: int) -> int
    decreases e - i,
{
    if i < 0 || i >= e {
        0
    } else {
        digit_data(s, i) + 32 * vlq_raw(s, i + 1, e)
    }
}

/// The low bit of the unsigned value is the sign, the rest the magnitude.
pub open spec fn vlq_signed(raw: int) -> int {
    if raw % 2 == 0 {
        raw / 2
    } else {
        -(raw / 2)
    }
}

/// The value that starts at `i`, and the index just past it.
pub open spec fn vlq_at(s: Seq<char>, i: int) -> Result<(int, int), DecodeError> {
    match vlq_scan(s, i) {
        Err(e) => Err(e),
        Ok(e) => if vlq_raw(s, i, e) > VLQ_MAX_RAW {
            Err(DecodeError::OutOfRange)
        } else {
            Ok((vlq_signed(vlq_raw(s, i, e)), e))
        },
    }
}

/// All values of a segment, from index `i` on.
pub open spec fn segment_values(s: Seq<char>, i: int) -> Result<Seq<int>, DecodeError>
    decreases s.len() - i,
{
    if i < 0 || i >= s.len() {
        Ok(seq![])
    } else {
        match vlq_at(s, i) {
            Err(e) => Err(e),
            Ok((v, e)) => if e <= i || e > s.len() {
                Ok(seq![])
            } else {
                match segment_values(s, e) {
                    Ok(rest) => Ok(seq![v] + rest),
                    Err(x) => Err(x),
                }
            },
        }
    }
}

/// `a` followed by the values of `r`, or the error of `r`.
pub open spec fn prepend_values(a: Seq<int>, r: Result<Seq<int>, DecodeError>) -> Result<Seq<int>, DecodeError> {
    match r {
        Ok(rest) => Ok(a + rest),
        Err(x) => Err(x),
    }
}

/// Decoded values as integers.
pub open spec fn values_view(v: Seq<i64>) -> Seq<int> {
    v.map_values(|x: i64| x as int)
}

proof fn lemma_scan_advances(s: Seq<char>, i: int)
    ensures
        vlq_scan(s, i) matches Ok(e) ==> i < e <= s.len(),
    decreases s.len() - i,
{
    if 0 <= i < s.len() {
        lemma_scan_advances(s, i + 1);
    }
}

proof fn lemma_scan_digits(s: Seq<char>, i: int)
    ensures
        vlq_scan(s, i) matches Ok(e) ==> forall|k: int| i <= k < e ==> (#[trigger] base64_digit(s[k])) is Some,
    decreases s.len() - i,
{
    if 0 <= i < s.len() {
        lemma_scan_digits(s, i + 1);
    }
}

/// A segment holding a character outside the base64 alphabet does not decode.
pub proof fn lemma_invalid_char_fails_segment(s: Seq<char>, i: int, p: int)
    requires
        0 <= i <= p < s.len(),
        base64_digit(s[p]) is None,
    ensures
        segment_values(s, i) is Err,
    decreases s.len() - i,
{
    lemma_scan_advances(s, i);
    lemma_scan_digits(s, i);
    if let Ok(e) = vlq_scan(s, i) {
        if vlq_raw(s, i, e) <= VLQ_MAX_RAW {
            assert(e <= p) by {
                if e > p {
                    assert(base64_digit(s[p]) is Some);
                }
            }
            lemma_invalid_char_fails_segment(s, e, p);
        }
    }
}

/// A non-empty segment that decodes holds at least one value.
pub proof fn lemma_values_nonempty(s: Seq<char>)
    requires
        s.len() > 0,
    ensures
        segment_values(s, 0) matches Ok(v) ==> v.len() > 0,
{
    lemma_scan_advances(s, 0);
}

proof fn lemma_raw_nonneg(s: Seq<char>, i: int, e: int)
    ensures
        vlq_raw(s, i, e) >= 0,
    decreases e - i,
{
    if 0 <= i < e {
        lemma_raw_nonneg(s, i + 1, e);
    }
}

/// Leading digits only add to a value: the digits from `i` on are worth at
/// least those from `k` on.
proof fn lemma_raw_mono(s: Seq<char>, i: int, k: int, e: int)
    requires
        0 <= i <= k <= e,
    ensures
        0 <= vlq_raw(s, k, e) <= vlq_raw(s, i, e),
    decreases k - i,
{
    lemma_raw_nonneg(s, k, e);
    if i < k {
        lemma_raw_mono(s, i + 1, k, e);
        lemma_raw_nonneg(s, i + 1, e);
    }
}

/// The 6-bit value of a base64 character.
pub fn get_base64_value(c: char) -> (r: Result<u32, DecodeError>)
    ensures
        match base64_digit(c) {
            Some(d) => r == Ok::<u32, DecodeError>(d),
            None => r == Err::<u32, DecodeError>(DecodeError::InvalidCharacter(c)),
        },
{
    let n = c as u32;
    if 65 <= n && n <= 90 {
        Ok(n - 65)
    } else if 97 <= n && n <= 122 {
        Ok(n - 97 + 26)
    } else if 48 <= n && n <= 57 {
        Ok(n - 48 + 52)
    } else if n == 43 {
        Ok(62)
    } else if n == 47 {
        Ok(63)
    } else {
        Err(DecodeError::InvalidCharacter(c))
    }
}

/// Decodes the value that starts at `index`; returns it and the index just past it.
pub fn decode_vlq(s: &Vec<char>, index: usize) -> (r: Result<(i64, usize), DecodeError>)
    ensures
        match (r, vlq_at(s@, index as int)) {
            (Ok((v, e)), Ok((sv, se))) => v == sv && e == se,
            (Err(a), Err(b)) => a == b,
            _ => false,
        },
        r matches Ok((v, _)) ==> -VLQ_BOUND < v < VLQ_BOUND,
{
    let mut j: usize = index;
    let mut done = false;
    while !done
        invariant
            index <= j,
            vlq_scan(s@, index as int) == if done {
                Ok::<int, DecodeError>(j as int)
            } else {
                vlq_scan(s@, j as int)
            },
            done ==> j <= s.len(),
            forall|m: int| index <= m < j ==> base64_digit(#[trigger] s@[m]) is Some,
        decreases s.len() - j + (if done { 0int } else { 1int }),
    {
        if j >= s.len() {
            return Err(DecodeError::Truncated);
        }
        let d = get_base64_value(s[j])?;
        j = j + 1;
        if d < VLQ_CONTINUATION_BIT {
            done = true;
        }
    }
    let mut raw: u64 = 0;
    let mut k: usize = j;
    while k > index
        invariant
            index <= k <= j <= s.len(),
            raw == vlq_raw(s@, k as int, j as int),
            raw <= VLQ_MAX_RAW,
            vlq_scan(s@, index as int) == Ok::<int, DecodeError>(j as int),
            forall|m: int| index <= m < j ==> base64_digit(#[trigger] s@[m]) is Some,
        decreases k,
    {
        k = k - 1;
        let d = get_base64_value(s[k]);
        let dv = match d {
            Ok(x) => x,
            Err(_) => 0,
        };
        let next = raw * 32 + (dv % 32) as u64;
        assert(next == vlq_raw(s@, k as int, j as int));
        if next > VLQ_MAX_RAW {
            proof {
                lemma_raw_mono(s@, index as int, k as int, j as int);
            }
            return Err(DecodeError::OutOfRange);
        }
        raw = next;
    }
    let mag = (raw / 2) as i64;
    let v = if raw % 2 == 0 { mag } else { -mag };
    Ok((v, j))
}

/// Decodes every value of one segment.
pub fn decode_segment(seg: &Vec<char>) -> (r: Result<Vec<i64>, DecodeError>)
    ensures
        match (r, segment_values(seg@, 0)) {
            (Ok(v), Ok(sv)) => values_view(v@) == sv,
            (Err(a), Err(b)) => a == b,
            _ => false,
        },
        r matches Ok(v) ==> forall|k: int| 0 <= k < v.len() ==> -VLQ_BOUND < #[trigger] v@[k] < VLQ_BOUND,
{
    let mut vals: Vec<i64> = Vec::new();
    let mut pos: usize = 0;
    while pos < seg.len()
        invariant
            pos <= seg.len(),
            segment_values(seg@, 0) == prepend_values(values_view(vals@), segment_values(seg@, pos as int)),
            forall|k: int| 0 <= k < vals.len() ==> -VLQ_BOUND < #[trigger] vals@[k] < VLQ_BOUND,
        decreases seg.len() - pos,
    {
        let (v, e) = decode_vlq(seg, pos)?;
        proof {
            lemma_scan_advances(seg@, pos as int);
            let rest = segment_values(seg@, e as int);
            assert(values_view(vals@.push(v)) == values_view(vals@).push(v as int));
            match rest {
                Ok(x) => {
                    assert(values_view(vals@) + (seq![v as int] + x) == values_view(vals@).push(v as int) + x);
                },
                Err(_) => {},
            }
        }
        vals.push(v);
        pos = e;
    }
    proof {
        assert(values_view(vals@) + seq![] == values_view(vals@));
    }
    Ok(vals)
}

} // verus!
