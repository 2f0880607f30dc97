//! The command boundary of the hardware adapters.
//!
//! Driving and reading an NVIDIA GPU happens through the
//! `nvidia-settings` and `nvidia-smi` command-line tools. The library
//! builds each command's argument list and parses each command's raw
//! output; actually spawning the processes is the caller's job, outside
//! the library.

use vstd::prelude::*;
use vstd::string::StringExecFns;
use crate::ascii::{
    dec_bytes, push_dec_bytes,
    all_digits, dec_chars, dec_value, is_digit_byte, lemma_dec_value_prefix_le,
    parse_sensor_value, push_decimal, sensor_reading,
};

verus! {

/// One detected GPU: its index, display name, and number of fans.
#[derive(Debug)]
pub struct Gpu {
    pub id: u32,
    pub name: String,
    pub fans: u32,
}

/// The `nvidia-settings` assignment that takes manual control of a
/// GPU's fans.
pub open spec fn fan_control_chars(gpu: int) -> Seq<char> {
    "[gpu:"@ + dec_chars(gpu) + "]/GPUFanControlState=1"@
}

/// The `nvidia-settings` assignment that drives one fan to a speed.
pub open spec fn fan_speed_chars(fan: int, speed: int) -> Seq<char> {
    "[fan:"@ + dec_chars(fan) + "]/GPUTargetFanSpeed="@ + dec_chars(speed)
}

/// The `nvidia-settings` query for a GPU's core temperature.
pub open spec fn temp_query_chars(gpu: int) -> Seq<char> {
    "[gpu:"@ + dec_chars(gpu) + "]/GPUCoreTemp"@
}

/// Build the fan-control-state assignment for a GPU.
pub fn fan_control_assignment(gpu_id: u32) -> (s: String)
    ensures
        s@ == fan_control_chars(gpu_id as int),
{
    let mut s = String::from_str("[gpu:");
    push_decimal(&mut s, gpu_id);
    s.append("]/GPUFanControlState=1");
    proof {
        assert(("[gpu:"@ + dec_chars(gpu_id as int)) + "]/GPUFanControlState=1"@
            =~= fan_control_chars(gpu_id as int));
    }
    s
}

/// Build the target-speed assignment for one fan.
pub fn fan_speed_assignment(fan_id: u32, speed: u32) -> (s: String)
    ensures
        s@ == fan_speed_chars(fan_id as int, speed as int),
{
    let mut s = String::from_str("[fan:");
    push_decimal(&mut s, fan_id);
    s.append("]/GPUTargetFanSpeed=");
    push_decimal(&mut s, speed);
    proof {
        assert((("[fan:"@ + dec_chars(fan_id as int)) + "]/GPUTargetFanSpeed="@) + dec_chars(
            speed as int,
        ) =~= fan_speed_chars(fan_id as int, speed as int));
    }
    s
}

/// The command that drives one fan of one GPU to a speed: privileged
/// `nvidia-settings` with the control-state and target-speed
/// assignments.
pub fn set_fan_speed(gpu_id: u32, fan_id: u32, speed: u32) -> (cmd: (String, Vec<String>))
    ensures
        cmd.0@ == "sudo"@,
        cmd.1@.len() == 5,
        cmd.1@[0]@ == "nvidia-settings"@,
        cmd.1@[1]@ == "-a"@,
        cmd.1@[2]@ == fan_control_chars(gpu_id as int),
        cmd.1@[3]@ == "-a"@,
        cmd.1@[4]@ == fan_speed_chars(fan_id as int, speed as int),
{
    let mut args: Vec<String> = Vec::new();
    args.push(String::from_str("nvidia-settings"));
    args.push(String::from_str("-a"));
    args.push(fan_control_assignment(gpu_id));
    args.push(String::from_str("-a"));
    args.push(fan_speed_assignment(fan_id, speed));
    (String::from_str("sudo"), args)
}

/// The query command for a GPU's core temperature.
pub fn temp_query_command(gpu_id: u32) -> (cmd: (String, Vec<String>))
    ensures
        cmd.0@ == "nvidia-settings"@,
        cmd.1@.len() == 3,
        cmd.1@[0]@ == "-q"@,
        cmd.1@[1]@ == temp_query_chars(gpu_id as int),
        cmd.1@[2]@ == "-t"@,
{
    let mut q = String::from_str("[gpu:");
    push_decimal(&mut q, gpu_id);
    q.append("]/GPUCoreTemp");
    proof {
        assert(("[gpu:"@ + dec_chars(gpu_id as int)) + "]/GPUCoreTemp"@ =~= temp_query_chars(
            gpu_id as int,
        ));
    }
    let mut args: Vec<String> = Vec::new();
    args.push(String::from_str("-q"));
    args.push(q);
    args.push(String::from_str("-t"));
    (String::from_str("nvidia-settings"), args)
}

/// The query command for a GPU's utilization percentage.
pub fn usage_query_command(gpu_id: u32) -> (cmd: (String, Vec<String>))
    ensures
        cmd.0@ == "nvidia-smi"@,
        cmd.1@.len() == 4,
        cmd.1@[0]@ == "--query-gpu=utilization.gpu"@,
        cmd.1@[1]@ == "--format=csv,noheader,nounits"@,
        cmd.1@[2]@ == "-i"@,
        cmd.1@[3]@ == dec_chars(gpu_id as int),
{
    let mut idx = String::new();
    push_decimal(&mut idx, gpu_id);
    proof {
        assert(Seq::<char>::empty() + dec_chars(gpu_id as int) =~= dec_chars(gpu_id as int));
    }
    let mut args: Vec<String> = Vec::new();
    args.push(String::from_str("--query-gpu=utilization.gpu"));
    args.push(String::from_str("--format=csv,noheader,nounits"));
    args.push(String::from_str("-i"));
    args.push(idx);
    (String::from_str("nvidia-smi"), args)
}

/// The query command that lists a GPU's fans.
pub fn fans_query_command() -> (cmd: (String, Vec<String>))
    ensures
        cmd.0@ == "nvidia-settings"@,
        cmd.1@.len() == 2,
        cmd.1@[0]@ == "-q"@,
        cmd.1@[1]@ == "fans"@,
{
    let mut args: Vec<String> = Vec::new();
    args.push(String::from_str("-q"));
    args.push(String::from_str("fans"));
    (String::from_str("nvidia-settings"), args)
}

/// Read a temperature out of raw `nvidia-settings` output.
pub fn get_temp(raw: &[u8]) -> (temp: Option<u32>)
    ensures
        temp == sensor_reading(raw@),
{
    parse_sensor_value(raw)
}

/// Read a utilization percentage out of raw `nvidia-smi` output.
pub fn get_gpu_usage(raw: &[u8]) -> (usage: Option<u32>)
    ensures
        usage == sensor_reading(raw@),
{
    parse_sensor_value(raw)
}

/// Length of the run of decimal digits at the head of the sequence.
pub open spec fn digit_run_len(s: Seq<u8>) -> int
    decreases s.len(),
{
    if s.len() > 0 && is_digit_byte(s[0]) {
        1 + digit_run_len(s.drop_first())
    } else {
        0
    }
}

/// The fan id named by a `[fan:<digits>]` tag at the head of the
/// sequence, if one is there and its id fits a 32-bit signed parse
/// (`[fan:` is bytes 91 102 97 110 58, `]` is byte 93).
pub open spec fn fan_tag_at(s: Seq<u8>) -> Option<int> {
    if s.len() >= 7 && s[0] == 91 && s[1] == 102 && s[2] == 97 && s[3] == 110 && s[4] == 58 {
        let m = digit_run_len(s.skip(5));
        if m >= 1 && 5 + m < s.len() && s[5 + m] == 93 && dec_value(s.subrange(5, 5 + m))
            <= i32::MAX as int {
            Some(dec_value(s.subrange(5, 5 + m)))
        } else {
            None
        }
    } else {
        None
    }
}

/// The largest fan id named anywhere in the output, or -1 if none is.
pub open spec fn max_fan_id(s: Seq<u8>) -> int
    decreases s.len(),
{
    if s.len() == 0 {
        -1
    } else {
        let rest = max_fan_id(s.drop_first());
        match fan_tag_at(s) {
            Some(id) => if id > rest {
                id
            } else {
                rest
            },
            None => rest,
        }
    }
}

/// How many fans the output names: one more than the largest id, or 0.
pub open spec fn fan_count_of(s: Seq<u8>) -> int {
    if max_fan_id(s) >= 0 {
        max_fan_id(s) + 1
    } else {
        0
    }
}

proof fn lemma_max_fan_id_lower(s: Seq<u8>)
    ensures
        max_fan_id(s) >= -1,
        max_fan_id(s) <= i32::MAX as int,
    decreases s.len(),
{
    if s.len() > 0 {
        lemma_max_fan_id_lower(s.drop_first());
    }
}

proof fn lemma_digit_run_at(t: Seq<u8>, m: int)
    requires
        0 <= m <= t.len(),
        forall|k: int| 0 <= k < m ==> is_digit_byte(#[trigger] t[k]),
        m < t.len() ==> !is_digit_byte(t[m]),
    ensures
        digit_run_len(t) == m,
    decreases m,
{
    if m == 0 {
    } else {
        let d = t.drop_first();
        assert(forall|i: int| 0 <= i < d.len() ==> #[trigger] d[i] == t[i + 1]);
        lemma_digit_run_at(d, m - 1);
    }
}

/// Count the fans a `nvidia-settings -q fans` listing names: the ids of
/// all well-formed `[fan:<id>]` tags are scanned and the count is one
/// more than the largest, or 0 when none is found.
pub fn count_fans(raw: &[u8]) -> (fans: u32)
    ensures
        fans as int == fan_count_of(raw@),
{
    let ghost s = raw@;
    let n = raw.len();
    let mut best: i64 = -1;
    let mut i: usize = 0;
    proof {
        lemma_max_fan_id_lower(s);
        assert(s.skip(0) =~= s);
    }
    while i < n
        invariant
            s == raw@,
            n == s.len(),
            i <= n,
            -1 <= best as int <= i32::MAX as int,
            max_fan_id(s) == (if best as int > max_fan_id(s.skip(i as int)) {
                best as int
            } else {
                max_fan_id(s.skip(i as int))
            }),
        decreases n - i,
    {
        let ghost suf = s.skip(i as int);
        proof {
            assert(forall|k: int| 0 <= k < suf.len() ==> #[trigger] suf[k] == s[k + i]);
            lemma_max_fan_id_lower(suf);
            lemma_max_fan_id_lower(s.skip(i as int + 1));
            assert(suf.drop_first() =~= s.skip(i as int + 1));
        }
        let mut tag_id: i64 = -1;
        if n - i >= 7 && raw[i] == 91 && raw[i + 1] == 102 && raw[i + 2] == 97 && raw[i + 3]
            == 110 && raw[i + 4] == 58 {
            let mut j = i + 5;
            while j < n && raw[j] >= 48 && raw[j] <= 57
                invariant
                    s == raw@,
                    n == s.len(),
                    i + 5 <= j <= n,
                    forall|k: int| i + 5 <= k < j ==> is_digit_byte(#[trigger] s[k]),
                decreases n - j,
            {
                j += 1;
            }
            let ghost run = suf.skip(5);
            let ghost m = j - (i + 5);
            proof {
                assert(forall|k: int| 0 <= k < run.len() ==> #[trigger] run[k] == s[k + i + 5]);
                lemma_digit_run_at(run, m as int);
            }
            if j > i + 5 && j < n && raw[j] == 93 {
                let ghost digits = suf.subrange(5, 5 + m);
                proof {
                    assert(digits =~= s.subrange(i as int + 5, j as int));
                    assert(forall|k: int|
                        0 <= k < digits.len() ==> #[trigger] digits[k] == s[k + i + 5]);
                    assert(all_digits(digits));
                    assert(digits.take(0) =~= Seq::<u8>::empty());
                }
                let mut acc: u64 = 0;
                let mut k = i + 5;
                while k < j && acc <= 2147483647
                    invariant
                        s == raw@,
                        n == s.len(),
                        i + 5 <= k <= j <= n,
                        digits == s.subrange(i as int + 5, j as int),
                        all_digits(digits),
                        forall|p: int| i + 5 <= p < j ==> is_digit_byte(#[trigger] s[p]),
                        acc == dec_value(digits.take(k - (i + 5))),
                        acc <= 21474836479,
                    decreases j - k,
                {
                    let b = raw[k];
                    proof {
                        assert(digits[k - (i + 5)] == s[k as int]);
                        let p = digits.take(k - (i + 5));
                        let q = digits.take(k - (i + 5) + 1);
                        assert(q.drop_last() =~= p);
                        assert(q.last() == digits[k - (i + 5)]);
                    }
                    acc = acc * 10 + ((b - 48) as u64);
                    k += 1;
                }
                if k == j && acc <= 2147483647 {
                    tag_id = acc as i64;
                    proof {
                        assert(digits.take(j - (i + 5)) =~= digits);
                        assert(fan_tag_at(suf) == Some(dec_value(digits)));
                    }
                } else {
                    proof {
                        lemma_dec_value_prefix_le(digits, k - (i + 5));
                        assert(dec_value(digits) > i32::MAX as int);
                        assert(fan_tag_at(suf) is None);
                    }
                }
            } else {
                proof {
                    if j == i + 5 {
                        assert(fan_tag_at(suf) is None);
                    } else if j == n {
                        assert(5 + digit_run_len(suf.skip(5)) >= suf.len());
                        assert(fan_tag_at(suf) is None);
                    } else {
                        assert(suf[5 + m] == s[j as int]);
                        assert(s[j as int] != 93);
                        assert(fan_tag_at(suf) is None);
                    }
                }
            }
        } else {
            proof {
                if n - i >= 7 {
                    assert(fan_tag_at(suf) is None);
                } else {
                    assert(suf.len() < 7);
                    assert(fan_tag_at(suf) is None);
                }
            }
        }
        if tag_id > best {
            best = tag_id;
        }
        i += 1;
    }
    proof {
        assert(s.skip(n as int) =~= Seq::<u8>::empty());
    }
    if best >= 0 {
        (best + 1) as u32
    } else {
        0
    }
}

/// The query command that lists the GPUs.
pub fn gpus_query_command() -> (cmd: (String, Vec<String>))
    ensures
        cmd.0@ == "nvidia-settings"@,
        cmd.1@.len() == 2,
        cmd.1@[0]@ == "-q"@,
        cmd.1@[1]@ == "gpus"@,
{
    let mut args: Vec<String> = Vec::new();
    args.push(String::from_str("-q"));
    args.push(String::from_str("gpus"));
    (String::from_str("nvidia-settings"), args)
}

/// Index of the first newline (byte 10), or the length if none is there.
pub open spec fn first_newline(s: Seq<u8>) -> int
    decreases s.len(),
{
    if s.len() == 0 {
        0
    } else if s[0] == 10 {
        0
    } else {
        1 + first_newline(s.drop_first())
    }
}

/// One trailing carriage return (byte 13) stripped, as line splitting
/// does at a `\r\n` ending.
pub open spec fn strip_cr(line: Seq<u8>) -> Seq<u8> {
    if line.len() > 0 && line.last() == 13 {
        line.drop_last()
    } else {
        line
    }
}

/// The lines of the output, split as the standard line iterator splits:
/// at `\n`, a preceding `\r` dropped, the final line ending optional.
pub open spec fn split_lines(s: Seq<u8>) -> Seq<Seq<u8>>
    decreases s.len(),
{
    if s.len() == 0 {
        seq![]
    } else {
        let i = first_newline(s);
        if 0 <= i < s.len() {
            seq![strip_cr(s.take(i))] + split_lines(s.skip(i + 1))
        } else {
            seq![s]
        }
    }
}

/// The `[gpu:<id>]` tag as bytes (`[gpu:` is 91 103 112 117 58, `]` is
/// 93).
pub open spec fn gpu_tag(gpu: int) -> Seq<u8> {
    seq![91u8, 103u8, 112u8, 117u8, 58u8] + dec_bytes(gpu) + seq![93u8]
}

/// `pat` occurs somewhere inside `s`.
pub open spec fn has_substring(s: Seq<u8>, pat: Seq<u8>) -> bool {
    exists|i: int|
        0 <= i && i + pat.len() <= s.len() && #[trigger] s.subrange(i, i + pat.len()) == pat
}

/// The parenthesized group a line ends with: the content between the
/// first `(` (byte 40) that is followed by no further `)` (byte 41)
/// before the line's closing `)`, non-empty. `None` when the line does
/// not end in such a group.
pub open spec fn paren_capture(line: Seq<u8>) -> Option<Seq<u8>>
    decreases line.len(),
{
    if line.len() < 3 {
        None
    } else if line[0] == 40 && line.last() == 41 && (forall|k: int|
        1 <= k < line.len() - 1 ==> line[k] != 41) {
        Some(line.subrange(1, line.len() - 1))
    } else {
        paren_capture(line.drop_first())
    }
}

/// The name the listing gives a GPU: the first line that holds the
/// GPU's tag and ends with a parenthesized group yields that group.
pub open spec fn gpu_name_in(lines: Seq<Seq<u8>>, gpu: int) -> Option<Seq<u8>>
    decreases lines.len(),
{
    if lines.len() == 0 {
        None
    } else if has_substring(lines[0], gpu_tag(gpu)) && paren_capture(lines[0]) is Some {
        paren_capture(lines[0])
    } else {
        gpu_name_in(lines.drop_first(), gpu)
    }
}

/// What parsing a `nvidia-settings -q gpus` listing yields for a GPU.
pub open spec fn parsed_gpu_name(raw: Seq<u8>, gpu: int) -> Option<Seq<u8>> {
    gpu_name_in(split_lines(raw), gpu)
}

proof fn lemma_first_newline_at(s: Seq<u8>, i: int)
    requires
        0 <= i <= s.len(),
        forall|k: int| 0 <= k < i ==> s[k] != 10,
        i < s.len() ==> s[i] == 10,
    ensures
        first_newline(s) == i,
    decreases i,
{
    if i == 0 {
    } else {
        let d = s.drop_first();
        assert(forall|k: int| 0 <= k < d.len() ==> #[trigger] d[k] == s[k + 1]);
        lemma_first_newline_at(d, i - 1);
    }
}

proof fn lemma_capture_no_close(s: Seq<u8>)
    requires
        s.len() == 0 || s.last() != 41,
    ensures
        paren_capture(s) is None,
    decreases s.len(),
{
    if s.len() >= 3 {
        let d = s.drop_first();
        assert(d.last() == s.last());
        lemma_capture_no_close(d);
    }
}

fn contains_sub(hay: &[u8], pat: &[u8]) -> (found: bool)
    ensures
        found == has_substring(hay@, pat@),
{
    let n = hay.len();
    let m = pat.len();
    if m > n {
        return false;
    }
    let mut i: usize = 0;
    while i <= n - m
        invariant
            m <= n,
            n == hay@.len(),
            m == pat@.len(),
            i <= n - m + 1,
            forall|k: int| 0 <= k < i ==> #[trigger] hay@.subrange(k, k + m) != pat@,
        decreases n - m - i + 1,
    {
        let mut j: usize = 0;
        while j < m && hay[i + j] == pat[j]
            invariant
                m <= n,
                n == hay@.len(),
                m == pat@.len(),
                i <= n - m,
                j <= m,
                forall|k: int| 0 <= k < j ==> hay@[i + k] == pat@[k],
            decreases m - j,
        {
            j += 1;
        }
        if j == m {
            proof {
                assert(hay@.subrange(i as int, i + m as int) =~= pat@);
            }
            return true;
        }
        proof {
            assert(hay@.subrange(i as int, i + m as int)[j as int] == hay@[i + j]);
            assert(hay@.subrange(i as int, i + m as int) != pat@);
        }
        i += 1;
    }
    proof {
        assert forall|k: int|
            0 <= k && k + pat@.len() <= hay@.len() implies #[trigger] hay@.subrange(
            k,
            k + pat@.len(),
        ) != pat@ by {
            assert(k < i);
        }
    }
    false
}

fn capture_trailing_group(line: &[u8]) -> (cap: Option<Vec<u8>>)
    ensures
        cap matches Some(v) ==> paren_capture(line@) == Some(v@),
        cap is None ==> paren_capture(line@) is None,
{
    let n = line.len();
    if n < 3 {
        return None;
    }
    if line[n - 1] != 41 {
        proof {
            lemma_capture_no_close(line@);
        }
        return None;
    }
    let mut p: usize = 0;
    proof {
        assert(line@.skip(0) =~= line@);
    }
    while p < n - 2
        invariant
            n == line@.len(),
            n >= 3,
            p <= n - 2,
            line@[n - 1] == 41,
            paren_capture(line@) == paren_capture(line@.skip(p as int)),
        decreases n - p,
    {
        let ghost suf = line@.skip(p as int);
        proof {
            assert(forall|q: int| 0 <= q < suf.len() ==> #[trigger] suf[q] == line@[q + p]);
            assert(suf.last() == line@[n - 1]);
            assert(suf.drop_first() =~= line@.skip(p as int + 1));
        }
        if line[p] == 40 {
            let mut k = p + 1;
            while k < n - 1 && line[k] != 41
                invariant
                    n == line@.len(),
                    p + 1 <= k <= n - 1,
                    forall|q: int| p + 1 <= q < k ==> line@[q] != 41,
                decreases n - k,
            {
                k += 1;
            }
            if k == n - 1 {
                let mut v: Vec<u8> = Vec::new();
                let mut q = p + 1;
                while q < n - 1
                    invariant
                        n == line@.len(),
                        p + 1 <= q <= n - 1,
                        v@ =~= line@.subrange(p as int + 1, q as int),
                    decreases n - q,
                {
                    v.push(line[q]);
                    q += 1;
                }
                proof {
                    assert(suf[0] == 40 && suf.last() == 41);
                    assert forall|w: int| 1 <= w < suf.len() - 1 implies suf[w] != 41 by {
                        assert(suf[w] == line@[w + p]);
                    }
                    assert(paren_capture(suf) == Some(suf.subrange(1, suf.len() - 1)));
                    assert(suf.subrange(1, suf.len() - 1) =~= line@.subrange(
                        p as int + 1,
                        n as int - 1,
                    ));
                }
                return Some(v);
            }
            proof {
                assert(line@[k as int] == 41);
                assert(suf[k - p] == 41);
                assert(1 <= k - p < suf.len() - 1);
                assert(paren_capture(suf) == paren_capture(suf.drop_first()));
            }
        } else {
            proof {
                assert(suf[0] != 40);
                assert(paren_capture(suf) == paren_capture(suf.drop_first()));
            }
        }
        p += 1;
    }
    proof {
        assert(line@.skip((n - 2) as int).len() < 3);
    }
    None
}

/// Extract a GPU's display name out of a raw `nvidia-settings -q gpus`
/// listing: the parenthesized group closing the first line that names
/// the GPU's tag. `None` when no line does.
pub fn parse_gpu_name(raw: &[u8], gpu_id: u32) -> (name: Option<Vec<u8>>)
    ensures
        name matches Some(v) ==> parsed_gpu_name(raw@, gpu_id as int) == Some(v@),
        name is None ==> parsed_gpu_name(raw@, gpu_id as int) is None,
{
    let mut tag: Vec<u8> = Vec::new();
    tag.push(91);
    tag.push(103);
    tag.push(112);
    tag.push(117);
    tag.push(58);
    push_dec_bytes(&mut tag, gpu_id);
    tag.push(93);
    proof {
        assert(tag@ =~= gpu_tag(gpu_id as int));
        assert(raw@.skip(0) =~= raw@);
    }
    let n = raw.len();
    let mut pos: usize = 0;
    while pos < n
        invariant
            n == raw@.len(),
            pos <= n,
            tag@ == gpu_tag(gpu_id as int),
            parsed_gpu_name(raw@, gpu_id as int) == gpu_name_in(
                split_lines(raw@.skip(pos as int)),
                gpu_id as int,
            ),
        decreases n - pos,
    {
        let ghost rest = raw@.skip(pos as int);
        proof {
            assert(forall|q: int| 0 <= q < rest.len() ==> #[trigger] rest[q] == raw@[q + pos]);
        }
        let mut nl = pos;
        while nl < n && raw[nl] != 10
            invariant
                n == raw@.len(),
                pos <= nl <= n,
                forall|q: int| pos <= q < nl ==> raw@[q] != 10,
            decreases n - nl,
        {
            nl += 1;
        }
        let mut le = nl;
        if nl < n && le > pos && raw[le - 1] == 13 {
            le -= 1;
        }
        let line = vstd::slice::slice_subrange(raw, pos, le);
        let ghost lines = split_lines(rest);
        proof {
            lemma_first_newline_at(rest, nl - pos);
            if nl < n {
                assert(strip_cr(rest.take(nl - pos)) =~= raw@.subrange(pos as int, le as int))
                    by {
                    assert(rest.take(nl - pos) =~= raw@.subrange(pos as int, nl as int));
                }
                assert(lines == seq![line@] + split_lines(rest.skip(nl - pos + 1)));
                assert(rest.skip(nl - pos + 1) =~= raw@.skip(nl as int + 1));
                assert(lines[0] == line@);
                assert(lines.drop_first() =~= split_lines(raw@.skip(nl as int + 1)));
            } else {
                assert(rest.len() > 0);
                assert(first_newline(rest) == rest.len());
                assert(lines == seq![rest]);
                assert(rest =~= raw@.subrange(pos as int, le as int));
                assert(lines[0] == line@);
                assert(lines.drop_first() =~= Seq::<Seq<u8>>::empty());
                assert(split_lines(raw@.skip(n as int)) =~= Seq::<Seq<u8>>::empty()) by {
                    assert(raw@.skip(n as int) =~= Seq::<u8>::empty());
                }
            }
        }
        if contains_sub(line, tag.as_slice()) {
            let cap = capture_trailing_group(line);
            if cap.is_some() {
                proof {
                    assert(gpu_name_in(lines, gpu_id as int) == paren_capture(lines[0]));
                }
                return cap;
            }
            proof {
                assert(gpu_name_in(lines, gpu_id as int) == gpu_name_in(
                    lines.drop_first(),
                    gpu_id as int,
                ));
            }
        } else {
            proof {
                assert(gpu_name_in(lines, gpu_id as int) == gpu_name_in(
                    lines.drop_first(),
                    gpu_id as int,
                ));
            }
        }
        if nl < n {
            pos = nl + 1;
        } else {
            pos = n;
        }
    }
    proof {
        assert(raw@.skip(n as int) =~= Seq::<u8>::empty());
    }
    None
}

/// Assemble the detected-GPU listing from a resolved fan count; only a
/// single GPU, index 0, is scanned for.
pub fn detect_gpus(fan_count: u32) -> (gpus: Vec<Gpu>)
    ensures
        gpus@.len() == 1,
        gpus@[0].id == 0,
        gpus@[0].fans == fan_count,
        gpus@[0].name@ == "Generic NVIDIA GPU"@,
{
    let mut v: Vec<Gpu> = Vec::new();
    v.push(Gpu { id: 0, name: String::from_str("Generic NVIDIA GPU"), fans: fan_count });
    v
}

} // verus!
