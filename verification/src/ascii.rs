//! Decimal text: formatting a number into a string and reading a sensor
//! value back out of raw command output.

use vstd::prelude::*;
use vstd::string::StringExecFns;

verus! {

/// The decimal digit character for a value in `[0, 9]`.
pub open spec fn digit_char(d: int) -> char {
    if d == 0 {
        '0'
    } else if d == 1 {
        '1'
    } else if d == 2 {
        '2'
    } else if d == 3 {
        '3'
    } else if d == 4 {
        '4'
    } else if d == 5 {
        '5'
    } else if d == 6 {
        '6'
    } else if d == 7 {
        '7'
    } else if d == 8 {
        '8'
    } else {
        '9'
    }
}

/// The decimal rendering of a non-negative number, most significant
/// digit first.
pub open spec fn dec_chars(n: int) -> Seq<char>
    decreases n,
{
    if n < 10 {
        seq![digit_char(n)]
    } else {
        dec_chars(n / 10) + seq![digit_char(n % 10)]
    }
}

fn digit_str(d: u32) -> (s: &'static str)
    requires
        d < 10,
    ensures
        s@ == seq![digit_char(d as int)],
{
    proof {
        reveal_strlit("0");
        reveal_strlit("1");
        reveal_strlit("2");
        reveal_strlit("3");
        reveal_strlit("4");
        reveal_strlit("5");
        reveal_strlit("6");
        reveal_strlit("7");
        reveal_strlit("8");
        reveal_strlit("9");
    }
    if d == 0 {
        "0"
    } else if d == 1 {
        "1"
    } else if d == 2 {
        "2"
    } else if d == 3 {
        "3"
    } else if d == 4 {
        "4"
    } else if d == 5 {
        "5"
    } else if d == 6 {
        "6"
    } else if d == 7 {
        "7"
    } else if d == 8 {
        "8"
    } else {
        "9"
    }
}

/// Append the decimal rendering of `n` to `s`.
pub fn push_decimal(s: &mut String, n: u32)
    ensures
        final(s)@ == old(s)@ + dec_chars(n as int),
    decreases n,
{
    if n >= 10 {
        push_decimal(s, n / 10);
        s.append(digit_str(n % 10));
        proof {
            assert(old(s)@ + dec_chars((n / 10) as int) + seq![digit_char((n % 10) as int)]
                =~= old(s)@ + dec_chars(n as int));
        }
    } else {
        s.append(digit_str(n));
        proof {
            assert(old(s)@ + seq![digit_char(n as int)] =~= old(s)@ + dec_chars(n as int));
        }
    }
}

/// The decimal rendering of a non-negative number as ASCII bytes, most
/// significant digit first.
pub open spec fn dec_bytes(n: int) -> Seq<u8>
    decreases n,
{
    if n < 10 {
        seq![(48 + n) as u8]
    } else {
        dec_bytes(n / 10) + seq![(48 + n % 10) as u8]
    }
}

/// Append the decimal rendering of `n` to a byte vector.
pub fn push_dec_bytes(v: &mut Vec<u8>, n: u32)
    ensures
        final(v)@ == old(v)@ + dec_bytes(n as int),
    decreases n,
{
    if n >= 10 {
        push_dec_bytes(v, n / 10);
        v.push((48 + n % 10) as u8);
        proof {
            assert(old(v)@ + dec_bytes((n / 10) as int) + seq![(48 + (n as int) % 10) as u8]
                =~= old(v)@ + dec_bytes(n as int));
        }
    } else {
        v.push((48 + n) as u8);
        proof {
            assert(old(v)@ + seq![(48 + (n as int)) as u8] =~= old(v)@ + dec_bytes(n as int));
        }
    }
}

/// ASCII whitespace, the bytes that `trim` strips from sensor output.
pub open spec fn is_space_byte(b: u8) -> bool {
    b == 32 || b == 9 || b == 10 || b == 11 || b == 12 || b == 13
}

/// An ASCII decimal digit.
pub open spec fn is_digit_byte(b: u8) -> bool {
    48 <= b <= 57
}

/// The numeric value of a digit byte.
pub open spec fn digit_val(b: u8) -> int {
    b as int - 48
}

/// Every byte of the sequence is a decimal digit.
pub open spec fn all_digits(s: Seq<u8>) -> bool {
    forall|i: int| 0 <= i < s.len() ==> is_digit_byte(#[trigger] s[i])
}

/// The number a digit sequence denotes, most significant digit first.
pub open spec fn dec_value(s: Seq<u8>) -> int
    decreases s.len(),
{
    if s.len() == 0 {
        0
    } else {
        dec_value(s.drop_last()) * 10 + digit_val(s.last())
    }
}

/// The sequence with its leading whitespace stripped.
pub open spec fn trim_front(s: Seq<u8>) -> Seq<u8>
    decreases s.len(),
{
    if s.len() > 0 && is_space_byte(s[0]) {
        trim_front(s.drop_first())
    } else {
        s
    }
}

/// The sequence with its trailing whitespace stripped.
pub open spec fn trim_back(s: Seq<u8>) -> Seq<u8>
    decreases s.len(),
{
    if s.len() > 0 && is_space_byte(s.last()) {
        trim_back(s.drop_last())
    } else {
        s
    }
}

/// The sequence with whitespace stripped from both ends.
pub open spec fn trimmed(s: Seq<u8>) -> Seq<u8> {
    trim_back(trim_front(s))
}

/// The digits a number parse looks at: the trimmed text, less one
/// optional leading plus sign (byte 43).
pub open spec fn numeric_part(s: Seq<u8>) -> Seq<u8> {
    let t = trimmed(s);
    if t.len() > 0 && t[0] == 43 {
        t.drop_first()
    } else {
        t
    }
}

/// What parsing raw sensor output yields: the trimmed text must be one
/// optional plus sign followed by nothing but decimal digits, and the
/// value must fit in 32 bits; otherwise the read is rejected.
pub open spec fn sensor_reading(s: Seq<u8>) -> Option<u32> {
    let t = numeric_part(s);
    if t.len() > 0 && all_digits(t) && dec_value(t) <= u32::MAX {
        Some(dec_value(t) as u32)
    } else {
        None
    }
}

proof fn lemma_trim_front_at(s: Seq<u8>, lo: int)
    requires
        0 <= lo <= s.len(),
        forall|k: int| 0 <= k < lo ==> is_space_byte(#[trigger] s[k]),
        lo < s.len() ==> !is_space_byte(s[lo]),
    ensures
        trim_front(s) == s.skip(lo),
    decreases lo,
{
    if lo == 0 {
        assert(s.skip(0) =~= s);
    } else {
        let d = s.drop_first();
        assert(forall|i: int| 0 <= i < d.len() ==> #[trigger] d[i] == s[i + 1]);
        lemma_trim_front_at(d, lo - 1);
        assert(d.skip(lo - 1) =~= s.skip(lo));
    }
}

proof fn lemma_trim_back_at(s: Seq<u8>, hi: int)
    requires
        0 <= hi <= s.len(),
        forall|k: int| hi <= k < s.len() ==> is_space_byte(#[trigger] s[k]),
        hi > 0 ==> !is_space_byte(s[hi - 1]),
    ensures
        trim_back(s) == s.take(hi),
    decreases s.len() - hi,
{
    if hi == s.len() {
        assert(s.take(hi) =~= s);
    } else {
        let d = s.drop_last();
        assert(forall|i: int| 0 <= i < d.len() ==> #[trigger] d[i] == s[i]);
        lemma_trim_back_at(d, hi);
        assert(d.take(hi) =~= s.take(hi));
    }
}

proof fn lemma_dec_value_nonneg(t: Seq<u8>)
    requires
        all_digits(t),
    ensures
        dec_value(t) >= 0,
    decreases t.len(),
{
    if t.len() > 0 {
        let d = t.drop_last();
        assert(forall|i: int| 0 <= i < d.len() ==> #[trigger] d[i] == t[i]);
        lemma_dec_value_nonneg(d);
    }
}

/// A digit string's value only grows as digits are appended.
pub proof fn lemma_dec_value_prefix_le(t: Seq<u8>, j: int)
    requires
        all_digits(t),
        0 <= j <= t.len(),
    ensures
        dec_value(t.take(j)) <= dec_value(t),
    decreases t.len() - j,
{
    if j == t.len() {
        assert(t.take(j) =~= t);
    } else {
        let p = t.take(j);
        let q = t.take(j + 1);
        assert(q.drop_last() =~= p);
        assert(q.last() == t[j]);
        assert(forall|i: int| 0 <= i < p.len() ==> #[trigger] p[i] == t[i]);
        lemma_dec_value_nonneg(p);
        lemma_dec_value_prefix_le(t, j + 1);
    }
}

fn is_space(b: u8) -> (r: bool)
    ensures
        r == is_space_byte(b),
{
    b == 32 || b == 9 || b == 10 || b == 11 || b == 12 || b == 13
}

/// Parse raw sensor output — an integer surrounded by whitespace — into
/// its value: exactly `sensor_reading` of the bytes.
pub fn parse_sensor_value(raw: &[u8]) -> (r: Option<u32>)
    ensures
        r == sensor_reading(raw@),
{
    let ghost s = raw@;
    let n = raw.len();
    let mut lo: usize = 0;
    while lo < n && is_space(raw[lo])
        invariant
            s == raw@,
            n == s.len(),
            lo <= n,
            forall|k: int| 0 <= k < lo ==> is_space_byte(#[trigger] s[k]),
        decreases n - lo,
    {
        lo += 1;
    }
    proof {
        lemma_trim_front_at(s, lo as int);
    }
    let mut hi: usize = n;
    while hi > lo && is_space(raw[hi - 1])
        invariant
            s == raw@,
            n == s.len(),
            lo <= hi <= n,
            forall|k: int| hi <= k < n ==> is_space_byte(#[trigger] s[k]),
        decreases hi,
    {
        hi -= 1;
    }
    proof {
        let f = s.skip(lo as int);
        assert(forall|i: int| 0 <= i < f.len() ==> #[trigger] f[i] == s[i + lo]);
        lemma_trim_back_at(f, hi - lo);
        assert(f.take(hi - lo) =~= s.subrange(lo as int, hi as int));
        assert(trimmed(s) == s.subrange(lo as int, hi as int));
    }
    let mut start: usize = lo;
    if start < hi && raw[start] == 43 {
        start += 1;
        proof {
            assert(trimmed(s)[0] == s[lo as int]);
            assert(trimmed(s).drop_first() =~= s.subrange(start as int, hi as int));
        }
    }
    let ghost t = s.subrange(start as int, hi as int);
    proof {
        assert(numeric_part(s) == t);
    }
    if start >= hi {
        return None;
    }
    let mut acc: u64 = 0;
    let mut i: usize = start;
    proof {
        assert(t.take(0) =~= Seq::<u8>::empty());
    }
    while i < hi
        invariant
            s == raw@,
            n == s.len(),
            start <= i <= hi <= n,
            t == s.subrange(start as int, hi as int),
            numeric_part(s) == t,
            start < hi,
            acc == dec_value(t.take(i - start)),
            acc <= u32::MAX,
            all_digits(t.take(i - start)),
        decreases hi - i,
    {
        let b = raw[i];
        proof {
            assert(t[i - start] == s[i as int]);
        }
        if b < 48 || b > 57 {
            proof {
                assert(!is_digit_byte(t[i - start]));
            }
            return None;
        }
        let d = (b - 48) as u64;
        acc = acc * 10 + d;
        proof {
            let p = t.take(i - start);
            let q = t.take(i - start + 1);
            assert(q.drop_last() =~= p);
            assert(q.last() == t[i - start]);
            assert(forall|k: int| 0 <= k < q.len() ==> #[trigger] q[k] == t[k]);
        }
        if acc > 0xFFFF_FFFF {
            proof {
                if all_digits(t) {
                    lemma_dec_value_prefix_le(t, i - start + 1);
                }
            }
            return None;
        }
        i += 1;
    }
    proof {
        assert(t.take(hi - start) =~= t);
    }
    Some(acc as u32)
}

} // verus!
