//! The lines of the optional shared-memory trace log.
//!
//! A line reads `SEC.USEC PID TAG fl=0xFLAGS r=RET PATH` and a newline, with
//! the microseconds zero-padded to six places and the flags in lowercase
//! hexadecimal; a line is cut to `TRACE_LINE_MAX` bytes, the last of which
//! is then a newline.

use vstd::prelude::*;

use crate::ipv4::{decimal, digits_value, law_decimal_reads_back};

verus! {

/// Longest trace line, newline included.
pub const TRACE_LINE_MAX: usize = 512;

/// The lowercase hexadecimal digit for `d < 16`.
pub open spec fn hex_digit(d: nat) -> u8 {
    if d < 10 {
        (48 + d) as u8
    } else {
        (87 + d) as u8
    }
}

/// The lowercase hexadecimal representation of `n`, without leading zeros.
pub open spec fn hexadecimal(n: nat) -> Seq<u8>
    decreases n,
{
    if n < 16 {
        seq![hex_digit(n)]
    } else {
        hexadecimal(n / 16).push(hex_digit(n % 16))
    }
}

/// The decimal representation of `x`, with a minus sign when negative.
pub open spec fn signed_decimal(x: int) -> Seq<u8> {
    if x < 0 {
        seq![45u8] + decimal((-x) as nat)
    } else {
        decimal(x as nat)
    }
}

/// `k` zero digits (none when `k` is not positive).
pub open spec fn zeros(k: int) -> Seq<u8> {
    Seq::new(if k > 0 { k as nat } else { 0 }, |i: int| 48u8)
}

/// `x` in decimal, zero-padded after the sign to six bytes in all.
pub open spec fn padded_decimal6(x: int) -> Seq<u8> {
    if x < 0 {
        seq![45u8] + zeros(5 - decimal((-x) as nat).len()) + decimal((-x) as nat)
    } else {
        zeros(6 - decimal(x as nat).len()) + decimal(x as nat)
    }
}

/// The bits of `x` read as an unsigned 32-bit number.
pub open spec fn as_unsigned(x: i32) -> nat {
    if x < 0 {
        (x + 4294967296) as nat
    } else {
        x as nat
    }
}

/// The whole trace line before it is cut to length.
pub open spec fn full_trace_line(
    sec: i32,
    usec: i32,
    pid: u32,
    tag: Seq<u8>,
    flags: i32,
    ret: i32,
    path: Seq<u8>,
) -> Seq<u8> {
    signed_decimal(sec as int) + seq![46u8] + padded_decimal6(usec as int) + seq![32u8] + decimal(pid as nat)
        + seq![32u8] + tag + seq![32u8, 102, 108, 61, 48, 120] + hexadecimal(as_unsigned(flags)) + seq![
        32u8,
        114,
        61,
    ] + signed_decimal(ret as int) + seq![32u8] + path + seq![10u8]
}

/// A line cut to `TRACE_LINE_MAX` bytes, the last of which becomes a newline.
pub open spec fn cut_line(full: Seq<u8>) -> Seq<u8> {
    if full.len() >= TRACE_LINE_MAX {
        full.subrange(0, TRACE_LINE_MAX - 1).push(10u8)
    } else {
        full
    }
}

/// The value of a lowercase hexadecimal digit: `0`..`9` are 0..9 and
/// `a`..`f` are 10..15.
pub open spec fn hex_digit_value(c: u8) -> int {
    if 48 <= c <= 57 {
        c - 48
    } else {
        c - 97 + 10
    }
}

/// The number that a sequence of lowercase hexadecimal digits denotes.
pub open spec fn read_hex(s: Seq<u8>) -> int
    decreases s.len(),
{
    if s.len() == 0 {
        0
    } else {
        read_hex(s.drop_last()) * 16 + hex_digit_value(s.last())
    }
}

/// Reading the hexadecimal representation of `n` back as base-16 digits
/// gives `n`; it is made of `0`..`9` and `a`..`f` only, without a leading
/// zero.
pub proof fn law_hex_reads_back(n: nat)
    ensures
        hexadecimal(n).len() >= 1,
        forall|i: int|
            0 <= i < hexadecimal(n).len() ==> (48 <= #[trigger] hexadecimal(n)[i] <= 57 || 97
                <= hexadecimal(n)[i] <= 102),
        read_hex(hexadecimal(n)) == n,
        hexadecimal(n).len() > 1 ==> hexadecimal(n)[0] != 48u8,
        n >= 16 ==> hexadecimal(n).len() >= 2,
    decreases n,
{
    let h = hexadecimal(n);
    if n < 16 {
        assert(h.drop_last().len() == 0);
        assert(read_hex(h.drop_last()) == 0);
    } else {
        law_hex_reads_back(n / 16);
        let g = hexadecimal(n / 16);
        assert(h.drop_last() =~= g);
        assert forall|i: int| 0 <= i < h.len() implies (48 <= #[trigger] h[i] <= 57 || 97 <= h[i] <= 102) by {
            if i < h.len() - 1 {
                assert(h[i] == g[i]);
            }
        }
        assert(h[0] == g[0]);
        if g.len() == 1 {
            assert(n / 16 < 16);
            assert(g[0] == hex_digit(n / 16));
        }
    }
}

/// `k` zero digits in front of digits do not change their value.
proof fn lemma_leading_zeros(k: int, t: Seq<u8>)
    ensures
        digits_value(zeros(k) + t) == digits_value(t),
    decreases t.len(), if k > 0 { k } else { 0 },
{
    if t.len() == 0 {
        assert(zeros(k) + t =~= zeros(k));
        if k > 0 {
            assert(zeros(k).drop_last() =~= zeros(k - 1) + t);
            lemma_leading_zeros(k - 1, t);
        } else {
            assert(zeros(k).len() == 0);
        }
    } else {
        assert((zeros(k) + t).drop_last() =~= zeros(k) + t.drop_last());
        lemma_leading_zeros(k, t.drop_last());
    }
}

/// A number written with a sign reads back as itself: a negative number is a
/// minus sign followed by the decimal digits of its magnitude.
pub proof fn law_signed_decimal_reads_back(x: int)
    ensures
        x >= 0 ==> digits_value(signed_decimal(x)) == x,
        x < 0 ==> signed_decimal(x)[0] == 45u8 && digits_value(signed_decimal(x).drop_first()) == -x,
{
    if x >= 0 {
        law_decimal_reads_back(x as nat);
    } else {
        law_decimal_reads_back((-x) as nat);
        assert(signed_decimal(x).drop_first() =~= decimal((-x) as nat));
    }
}

/// The six-place field holds at least six bytes, and reads back as the
/// number: its digits (after a minus sign for a negative number) denote the
/// magnitude, padded only with leading zeros.
pub proof fn law_padded_decimal6_reads_back(x: int)
    ensures
        padded_decimal6(x).len() >= 6,
        x >= 0 ==> digits_value(padded_decimal6(x)) == x,
        x < 0 ==> padded_decimal6(x)[0] == 45u8 && digits_value(padded_decimal6(x).drop_first()) == -x,
        forall|i: int|
            (if x < 0 { 1int } else { 0int }) <= i < padded_decimal6(x).len() ==> 48 <= #[trigger] padded_decimal6(
                x,
            )[i] <= 57,
{
    let m: nat = if x < 0 { (-x) as nat } else { x as nat };
    law_decimal_reads_back(m);
    let dm = decimal(m);
    if x < 0 {
        lemma_leading_zeros(5 - dm.len(), dm);
        assert(padded_decimal6(x).drop_first() =~= zeros(5 - dm.len()) + dm);
        let p = padded_decimal6(x);
        assert forall|i: int| 1 <= i < p.len() implies 48 <= #[trigger] p[i] <= 57 by {
            if i - 1 >= zeros(5 - dm.len()).len() {
                assert(p[i] == dm[i - 1 - zeros(5 - dm.len()).len()]);
            }
        }
    } else {
        lemma_leading_zeros(6 - dm.len(), dm);
        let p = padded_decimal6(x);
        assert forall|i: int| 0 <= i < p.len() implies 48 <= #[trigger] p[i] <= 57 by {
            if i >= zeros(6 - dm.len()).len() {
                assert(p[i] == dm[i - zeros(6 - dm.len()).len()]);
            }
        }
    }
}

/// A cut line is at most `TRACE_LINE_MAX` bytes long, agrees with the full
/// line on every byte but the last, ends with a newline when the full line
/// does, and is the full line itself when that fits.
pub proof fn law_cut_line(full: Seq<u8>)
    ensures
        cut_line(full).len() == if full.len() >= 512 { 512 } else { full.len() },
        forall|i: int| 0 <= i < cut_line(full).len() - 1 ==> #[trigger] cut_line(full)[i] == full[i],
        full.len() >= 1 && full[full.len() - 1] == 10u8 ==> cut_line(full)[cut_line(full).len() - 1] == 10u8,
        full.len() <= 512 && full.len() >= 1 && full[full.len() - 1] == 10u8 ==> cut_line(full) == full,
{
}

/// Every trace line ends with a newline and is at most `TRACE_LINE_MAX`
/// bytes long.
pub proof fn law_trace_line_shape(sec: i32, usec: i32, pid: u32, tag: Seq<u8>, flags: i32, ret: i32, path: Seq<u8>)
    ensures
        ({
            let line = cut_line(full_trace_line(sec, usec, pid, tag, flags, ret, path));
            &&& 1 <= line.len() <= 512
            &&& line[line.len() - 1] == 10u8
        }),
{
    let full = full_trace_line(sec, usec, pid, tag, flags, ret, path);
    law_cut_line(full);
}

/// Appends the decimal digits of `n`.
fn push_decimal(out: &mut Vec<u8>, n: u32)
    ensures
        final(out)@ == old(out)@ + decimal(n as nat),
    decreases n,
{
    if n >= 10 {
        push_decimal(out, n / 10);
    }
    out.push(48 + (n % 10) as u8);
    proof {
        if n >= 10 {
            assert(decimal(n as nat) == decimal((n / 10) as nat).push((48 + n % 10) as u8));
        }
    }
    assert(out@ =~= old(out)@ + decimal(n as nat));
}

/// Appends the lowercase hexadecimal digits of `n`.
fn push_hex(out: &mut Vec<u8>, n: u32)
    ensures
        final(out)@ == old(out)@ + hexadecimal(n as nat),
    decreases n,
{
    if n >= 16 {
        push_hex(out, n / 16);
    }
    let d = (n % 16) as u8;
    let digit = if d < 10 { 48 + d } else { 87 + d };
    out.push(digit);
    proof {
        if n >= 16 {
            assert(hexadecimal(n as nat) == hexadecimal((n / 16) as nat).push(hex_digit((n % 16) as nat)));
        }
    }
    assert(out@ =~= old(out)@ + hexadecimal(n as nat));
}

/// Appends the bytes of `s`.
fn push_all(out: &mut Vec<u8>, s: &[u8])
    ensures
        final(out)@ == old(out)@ + s@,
{
    let mut i: usize = 0;
    while i < s.len()
        invariant
            i <= s@.len(),
            out@ == old(out)@ + s@.subrange(0, i as int),
        decreases s@.len() - i,
    {
        out.push(s[i]);
        i = i + 1;
        assert(out@ =~= old(out)@ + s@.subrange(0, i as int));
    }
    assert(s@.subrange(0, i as int) =~= s@);
}

/// The magnitude of `x`.
fn magnitude(x: i32) -> (m: u32)
    ensures
        m as int == if x < 0 { -x } else { x as int },
{
    if x < 0 {
        (-(x as i64)) as u32
    } else {
        x as u32
    }
}

/// The bits of `x` as an unsigned number.
fn unsigned_bits(x: i32) -> (r: u32)
    ensures
        r as nat == as_unsigned(x),
{
    if x < 0 {
        (x as i64 + 4294967296) as u32
    } else {
        x as u32
    }
}

/// Appends `x` in decimal with a minus sign when negative.
fn push_signed_decimal(out: &mut Vec<u8>, x: i32)
    ensures
        final(out)@ == old(out)@ + signed_decimal(x as int),
{
    if x < 0 {
        out.push(45);
    }
    push_decimal(out, magnitude(x));
    assert(out@ =~= old(out)@ + signed_decimal(x as int));
}

/// Appends `x` in decimal, zero-padded after the sign to six bytes.
fn push_padded_decimal6(out: &mut Vec<u8>, x: i32)
    ensures
        final(out)@ == old(out)@ + padded_decimal6(x as int),
{
    let mut digits: Vec<u8> = Vec::new();
    push_decimal(&mut digits, magnitude(x));
    assert(digits@ =~= decimal(if x < 0 { -x } else { x as int } as nat));
    let width: usize = if x < 0 {
        out.push(45);
        5
    } else {
        6
    };
    let ghost before_zeros = out@;
    let mut k = digits.len();
    while k < width
        invariant
            digits@.len() <= k <= width || width <= k == digits@.len(),
            out@ == before_zeros + zeros(k - digits@.len()),
        decreases width - k,
    {
        out.push(48);
        k = k + 1;
        assert(out@ =~= before_zeros + zeros(k - digits@.len()));
    }
    assert(zeros(k - digits@.len()) =~= zeros(width - digits@.len()));
    push_all(out, digits.as_slice());
    assert(out@ =~= old(out)@ + padded_decimal6(x as int));
}

/// Builds one trace line: the time as seconds and microseconds, the process
/// id, a tag naming the call, the flags, the result, and the path, cut to
/// `TRACE_LINE_MAX` bytes.
pub fn trace_line(sec: i32, usec: i32, pid: u32, tag: &[u8], flags: i32, ret: i32, path: &[u8]) -> (line: Vec<u8>)
    ensures
        line@ == cut_line(full_trace_line(sec, usec, pid, tag@, flags, ret, path@)),
{
    let mut out: Vec<u8> = Vec::new();
    push_signed_decimal(&mut out, sec);
    out.push(46);
    push_padded_decimal6(&mut out, usec);
    out.push(32);
    push_decimal(&mut out, pid);
    out.push(32);
    push_all(&mut out, tag);
    out.push(32);
    out.push(102);
    out.push(108);
    out.push(61);
    out.push(48);
    out.push(120);
    push_hex(&mut out, unsigned_bits(flags));
    out.push(32);
    out.push(114);
    out.push(61);
    push_signed_decimal(&mut out, ret);
    out.push(32);
    push_all(&mut out, path);
    out.push(10);
    assert(out@ =~= full_trace_line(sec, usec, pid, tag@, flags, ret, path@));
    if out.len() >= TRACE_LINE_MAX {
        out.truncate(TRACE_LINE_MAX - 1);
        out.push(10);
    }
    out
}

} // verus!
