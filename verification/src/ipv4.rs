//! Dotted-decimal IPv4 addresses (`a.b.c.d`, each part 0 to 255 written in
//! decimal without leading zeros).

use vstd::prelude::*;

verus! {

/// An ASCII decimal digit.
pub open spec fn is_digit(b: u8) -> bool {
    48 <= b <= 57
}

/// The decimal representation of `n`, without leading zeros.
pub open spec fn decimal(n: nat) -> Seq<u8>
    decreases n,
{
    if n < 10 {
        seq![(48 + n) as u8]
    } else {
        decimal(n / 10).push((48 + n % 10) as u8)
    }
}

/// The number that a sequence of decimal digits denotes.
pub open spec fn digits_value(s: Seq<u8>) -> nat
    decreases s.len(),
{
    if s.len() == 0 {
        0
    } else {
        digits_value(s.drop_last()) * 10 + (s.last() - 48) as nat
    }
}

/// Every byte of `s` is a decimal digit.
pub open spec fn all_digits(s: Seq<u8>) -> bool {
    forall|i: int| 0 <= i < s.len() ==> is_digit(#[trigger] s[i])
}

/// A non-empty run of digits without a leading zero (a lone `0` is fine).
pub open spec fn is_canonical_number(s: Seq<u8>) -> bool {
    &&& s.len() >= 1
    &&& all_digits(s)
    &&& (s.len() > 1 ==> s[0] != 48u8)
}

/// The text `a.b.c.d`.
pub open spec fn dotted_quad(a: u8, b: u8, c: u8, d: u8) -> Seq<u8> {
    decimal(a as nat) + seq![46u8] + decimal(b as nat) + seq![46u8] + decimal(c as nat) + seq![46u8]
        + decimal(d as nat)
}

/// The address `a.b.c.d` as a number, `a` being the most significant byte.
pub open spec fn ipv4_number(a: u8, b: u8, c: u8, d: u8) -> u32 {
    (a as int * 16777216 + b as int * 65536 + c as int * 256 + d as int) as u32
}

/// The address that the text `s` denotes, if `s` is a dotted quad.
pub open spec fn spec_parse_ipv4(s: Seq<u8>) -> Option<u32> {
    if exists|a: u8, b: u8, c: u8, d: u8| s == #[trigger] dotted_quad(a, b, c, d) {
        let (a, b, c, d) = choose|a: u8, b: u8, c: u8, d: u8| s == #[trigger] dotted_quad(a, b, c, d);
        Some(ipv4_number(a, b, c, d))
    } else {
        None
    }
}

/// `s[pos..end]` is the decimal representation of `v`, and the run of digits
/// that starts at `pos` ends at `end`.
pub open spec fn octet_at(s: Seq<u8>, pos: int, v: u8, end: int) -> bool {
    &&& 0 <= pos < end <= s.len()
    &&& s.subrange(pos, end) == decimal(v as nat)
    &&& (end == s.len() || !is_digit(s[end]))
}

proof fn lemma_decimal(n: nat)
    ensures
        is_canonical_number(decimal(n)),
        digits_value(decimal(n)) == n,
        n < 10 ==> decimal(n).len() == 1,
        n < 100 ==> decimal(n).len() <= 2,
        n < 1000 ==> decimal(n).len() <= 3,
        n >= 10 ==> decimal(n).len() >= 2,
    decreases n,
{
    if n >= 10 {
        lemma_decimal(n / 10);
        let t = decimal(n);
        assert(t.drop_last() =~= decimal(n / 10));
        assert(all_digits(t)) by {
            assert forall|i: int| 0 <= i < t.len() implies is_digit(#[trigger] t[i]) by {
                if i < t.len() - 1 {
                    assert(t[i] == decimal(n / 10)[i]);
                }
            }
        }
        assert(t[0] == decimal(n / 10)[0]);
        if n / 10 < 10 {
            assert(decimal(n / 10)[0] == (48 + n / 10) as u8);
        }
    } else {
        assert(digits_value(decimal(n)) == digits_value(decimal(n).drop_last()) * 10 + (n as int));
        assert(decimal(n).drop_last() =~= Seq::<u8>::empty());
    }
}

proof fn lemma_digits_value_positive(t: Seq<u8>)
    requires
        t.len() >= 1,
        all_digits(t),
        t[0] != 48u8,
    ensures
        digits_value(t) >= 1,
    decreases t.len(),
{
    if t.len() > 1 {
        let u = t.drop_last();
        assert(all_digits(u)) by {
            assert forall|i: int| 0 <= i < u.len() implies is_digit(#[trigger] u[i]) by {
                assert(u[i] == t[i]);
            }
        }
        assert(u[0] == t[0]);
        lemma_digits_value_positive(u);
    } else {
        assert(t.drop_last().len() == 0);
    }
}

/// A canonical run of digits is the decimal representation of its value.
proof fn lemma_canonical_is_decimal(t: Seq<u8>)
    requires
        is_canonical_number(t),
    ensures
        decimal(digits_value(t)) == t,
    decreases t.len(),
{
    let x = t.last();
    assert(is_digit(t[t.len() - 1]));
    if t.len() == 1 {
        assert(t.drop_last().len() == 0);
        assert(digits_value(t.drop_last()) == 0);
        assert(digits_value(t) == (x - 48) as nat);
        assert(decimal(digits_value(t)) =~= t);
    } else {
        let u = t.drop_last();
        assert(all_digits(u)) by {
            assert forall|i: int| 0 <= i < u.len() implies is_digit(#[trigger] u[i]) by {
                assert(u[i] == t[i]);
            }
        }
        assert(u[0] == t[0]);
        lemma_digits_value_positive(u);
        lemma_canonical_is_decimal(u);
        let n = digits_value(t);
        assert(n == digits_value(u) * 10 + (x - 48) as nat);
        assert(n / 10 == digits_value(u));
        assert(n % 10 == (x - 48) as nat);
        assert(decimal(n) =~= u.push(x));
        assert(u.push(x) =~= t);
    }
}

proof fn lemma_decimal_injective(v1: nat, v2: nat)
    requires
        decimal(v1) == decimal(v2),
    ensures
        v1 == v2,
{
    lemma_decimal(v1);
    lemma_decimal(v2);
}

/// At a given position there is at most one octet.
pub proof fn lemma_octet_unique(s: Seq<u8>, pos: int, v1: u8, e1: int, v2: u8, e2: int)
    requires
        octet_at(s, pos, v1, e1),
        octet_at(s, pos, v2, e2),
    ensures
        v1 == v2,
        e1 == e2,
{
    lemma_decimal(v1 as nat);
    lemma_decimal(v2 as nat);
    if e1 < e2 {
        assert(s[e1] == s.subrange(pos, e2)[e1 - pos]);
        assert(is_digit(decimal(v2 as nat)[e1 - pos]));
    } else if e2 < e1 {
        assert(s[e2] == s.subrange(pos, e1)[e2 - pos]);
        assert(is_digit(decimal(v1 as nat)[e2 - pos]));
    }
    lemma_decimal_injective(v1 as nat, v2 as nat);
}

/// The four octets of a dotted quad, and where each one ends.
proof fn lemma_quad_octets(s: Seq<u8>, a: u8, b: u8, c: u8, d: u8)
    requires
        s == dotted_quad(a, b, c, d),
    ensures
        ({
            let e1 = decimal(a as nat).len() as int;
            let e2 = e1 + 1 + decimal(b as nat).len();
            let e3 = e2 + 1 + decimal(c as nat).len();
            let e4 = e3 + 1 + decimal(d as nat).len();
            &&& octet_at(s, 0, a, e1)
            &&& s[e1] == 46u8
            &&& octet_at(s, e1 + 1, b, e2)
            &&& s[e2] == 46u8
            &&& octet_at(s, e2 + 1, c, e3)
            &&& s[e3] == 46u8
            &&& octet_at(s, e3 + 1, d, e4)
            &&& e4 == s.len()
        }),
{
    lemma_decimal(a as nat);
    lemma_decimal(b as nat);
    lemma_decimal(c as nat);
    lemma_decimal(d as nat);
    let da = decimal(a as nat);
    let db = decimal(b as nat);
    let dc = decimal(c as nat);
    let dd = decimal(d as nat);
    let e1 = da.len() as int;
    let e2 = e1 + 1 + db.len();
    let e3 = e2 + 1 + dc.len();
    let e4 = e3 + 1 + dd.len();
    assert(s.len() == e4);
    assert(s.subrange(0, e1) =~= da);
    assert(s.subrange(e1 + 1, e2) =~= db);
    assert(s.subrange(e2 + 1, e3) =~= dc);
    assert(s.subrange(e3 + 1, e4) =~= dd);
    assert(s[e1] == 46u8);
    assert(s[e2] == 46u8);
    assert(s[e3] == 46u8);
}

/// `s` is some dotted quad.
pub open spec fn is_dotted_quad(s: Seq<u8>) -> bool {
    exists|a: u8, b: u8, c: u8, d: u8| s == #[trigger] dotted_quad(a, b, c, d)
}

proof fn lemma_not_quad_at_first(s: Seq<u8>)
    requires
        forall|v: u8, end: int| !#[trigger] octet_at(s, 0, v, end),
    ensures
        spec_parse_ipv4(s) is None,
{
    if is_dotted_quad(s) {
        let (qa, qb, qc, qd) = choose|a: u8, b: u8, c: u8, d: u8| s == #[trigger] dotted_quad(a, b, c, d);
        lemma_quad_octets(s, qa, qb, qc, qd);
        assert(octet_at(s, 0, qa, decimal(qa as nat).len() as int));
    }
}

proof fn lemma_not_quad_first_dot(s: Seq<u8>, a: u8, p1: int)
    requires
        octet_at(s, 0, a, p1),
        !(p1 < s.len() && s[p1] == 46u8),
    ensures
        spec_parse_ipv4(s) is None,
{
    if is_dotted_quad(s) {
        let (qa, qb, qc, qd) = choose|a: u8, b: u8, c: u8, d: u8| s == #[trigger] dotted_quad(a, b, c, d);
        lemma_quad_octets(s, qa, qb, qc, qd);
        lemma_octet_unique(s, 0, a, p1, qa, decimal(qa as nat).len() as int);
    }
}

proof fn lemma_not_quad_second(s: Seq<u8>, a: u8, p1: int)
    requires
        octet_at(s, 0, a, p1),
        forall|v: u8, end: int| !#[trigger] octet_at(s, p1 + 1, v, end),
    ensures
        spec_parse_ipv4(s) is None,
{
    if is_dotted_quad(s) {
        let (qa, qb, qc, qd) = choose|a: u8, b: u8, c: u8, d: u8| s == #[trigger] dotted_quad(a, b, c, d);
        lemma_quad_octets(s, qa, qb, qc, qd);
        let e1 = decimal(qa as nat).len() as int;
        lemma_octet_unique(s, 0, a, p1, qa, e1);
        assert(octet_at(s, p1 + 1, qb, e1 + 1 + decimal(qb as nat).len()));
    }
}

proof fn lemma_not_quad_second_dot(s: Seq<u8>, a: u8, p1: int, b: u8, p2: int)
    requires
        octet_at(s, 0, a, p1),
        octet_at(s, p1 + 1, b, p2),
        !(p2 < s.len() && s[p2] == 46u8),
    ensures
        spec_parse_ipv4(s) is None,
{
    if is_dotted_quad(s) {
        let (qa, qb, qc, qd) = choose|a: u8, b: u8, c: u8, d: u8| s == #[trigger] dotted_quad(a, b, c, d);
        lemma_quad_octets(s, qa, qb, qc, qd);
        let e1 = decimal(qa as nat).len() as int;
        let e2 = e1 + 1 + decimal(qb as nat).len();
        lemma_octet_unique(s, 0, a, p1, qa, e1);
        lemma_octet_unique(s, p1 + 1, b, p2, qb, e2);
    }
}

proof fn lemma_not_quad_third(s: Seq<u8>, a: u8, p1: int, b: u8, p2: int)
    requires
        octet_at(s, 0, a, p1),
        octet_at(s, p1 + 1, b, p2),
        forall|v: u8, end: int| !#[trigger] octet_at(s, p2 + 1, v, end),
    ensures
        spec_parse_ipv4(s) is None,
{
    if is_dotted_quad(s) {
        let (qa, qb, qc, qd) = choose|a: u8, b: u8, c: u8, d: u8| s == #[trigger] dotted_quad(a, b, c, d);
        lemma_quad_octets(s, qa, qb, qc, qd);
        let e1 = decimal(qa as nat).len() as int;
        let e2 = e1 + 1 + decimal(qb as nat).len();
        let e3 = e2 + 1 + decimal(qc as nat).len();
        lemma_octet_unique(s, 0, a, p1, qa, e1);
        lemma_octet_unique(s, p1 + 1, b, p2, qb, e2);
        assert(octet_at(s, p2 + 1, qc, e3));
    }
}

proof fn lemma_not_quad_third_dot(s: Seq<u8>, a: u8, p1: int, b: u8, p2: int, c: u8, p3: int)
    requires
        octet_at(s, 0, a, p1),
        octet_at(s, p1 + 1, b, p2),
        octet_at(s, p2 + 1, c, p3),
        !(p3 < s.len() && s[p3] == 46u8),
    ensures
        spec_parse_ipv4(s) is None,
{
    if is_dotted_quad(s) {
        let (qa, qb, qc, qd) = choose|a: u8, b: u8, c: u8, d: u8| s == #[trigger] dotted_quad(a, b, c, d);
        lemma_quad_octets(s, qa, qb, qc, qd);
        let e1 = decimal(qa as nat).len() as int;
        let e2 = e1 + 1 + decimal(qb as nat).len();
        let e3 = e2 + 1 + decimal(qc as nat).len();
        lemma_octet_unique(s, 0, a, p1, qa, e1);
        lemma_octet_unique(s, p1 + 1, b, p2, qb, e2);
        lemma_octet_unique(s, p2 + 1, c, p3, qc, e3);
    }
}

proof fn lemma_not_quad_fourth(s: Seq<u8>, a: u8, p1: int, b: u8, p2: int, c: u8, p3: int)
    requires
        octet_at(s, 0, a, p1),
        octet_at(s, p1 + 1, b, p2),
        octet_at(s, p2 + 1, c, p3),
        forall|v: u8, end: int| !#[trigger] octet_at(s, p3 + 1, v, end),
    ensures
        spec_parse_ipv4(s) is None,
{
    if is_dotted_quad(s) {
        let (qa, qb, qc, qd) = choose|a: u8, b: u8, c: u8, d: u8| s == #[trigger] dotted_quad(a, b, c, d);
        lemma_quad_octets(s, qa, qb, qc, qd);
        let e1 = decimal(qa as nat).len() as int;
        let e2 = e1 + 1 + decimal(qb as nat).len();
        let e3 = e2 + 1 + decimal(qc as nat).len();
        let e4 = e3 + 1 + decimal(qd as nat).len();
        lemma_octet_unique(s, 0, a, p1, qa, e1);
        lemma_octet_unique(s, p1 + 1, b, p2, qb, e2);
        lemma_octet_unique(s, p2 + 1, c, p3, qc, e3);
        assert(octet_at(s, p3 + 1, qd, e4));
    }
}

proof fn lemma_not_quad_end(s: Seq<u8>, a: u8, p1: int, b: u8, p2: int, c: u8, p3: int, d: u8, p4: int)
    requires
        octet_at(s, 0, a, p1),
        octet_at(s, p1 + 1, b, p2),
        octet_at(s, p2 + 1, c, p3),
        octet_at(s, p3 + 1, d, p4),
        p4 != s.len(),
    ensures
        spec_parse_ipv4(s) is None,
{
    if is_dotted_quad(s) {
        let (qa, qb, qc, qd) = choose|a: u8, b: u8, c: u8, d: u8| s == #[trigger] dotted_quad(a, b, c, d);
        lemma_quad_octets(s, qa, qb, qc, qd);
        let e1 = decimal(qa as nat).len() as int;
        let e2 = e1 + 1 + decimal(qb as nat).len();
        let e3 = e2 + 1 + decimal(qc as nat).len();
        let e4 = e3 + 1 + decimal(qd as nat).len();
        lemma_octet_unique(s, 0, a, p1, qa, e1);
        lemma_octet_unique(s, p1 + 1, b, p2, qb, e2);
        lemma_octet_unique(s, p2 + 1, c, p3, qc, e3);
        lemma_octet_unique(s, p3 + 1, d, p4, qd, e4);
    }
}

proof fn lemma_quad_found(s: Seq<u8>, a: u8, p1: int, b: u8, p2: int, c: u8, p3: int, d: u8)
    requires
        octet_at(s, 0, a, p1),
        s[p1] == 46u8,
        octet_at(s, p1 + 1, b, p2),
        s[p2] == 46u8,
        octet_at(s, p2 + 1, c, p3),
        s[p3] == 46u8,
        octet_at(s, p3 + 1, d, s.len() as int),
    ensures
        spec_parse_ipv4(s) == Some(ipv4_number(a, b, c, d)),
{
    assert(s =~= dotted_quad(a, b, c, d)) by {
        assert(s =~= s.subrange(0, p1) + seq![46u8] + s.subrange(p1 + 1, p2) + seq![46u8] + s.subrange(
            p2 + 1,
            p3,
        ) + seq![46u8] + s.subrange(p3 + 1, s.len() as int));
    }
    let (qa, qb, qc, qd) = choose|a: u8, b: u8, c: u8, d: u8| s == #[trigger] dotted_quad(a, b, c, d);
    lemma_quad_octets(s, qa, qb, qc, qd);
    let e1 = decimal(qa as nat).len() as int;
    let e2 = e1 + 1 + decimal(qb as nat).len();
    let e3 = e2 + 1 + decimal(qc as nat).len();
    let e4 = e3 + 1 + decimal(qd as nat).len();
    lemma_octet_unique(s, 0, a, p1, qa, e1);
    lemma_octet_unique(s, p1 + 1, b, p2, qb, e2);
    lemma_octet_unique(s, p2 + 1, c, p3, qc, e3);
    lemma_octet_unique(s, p3 + 1, d, s.len() as int, qd, e4);
}

/// Parsing gives back the address that was written: the text `a.b.c.d` of any
/// four octets parses to the number `a.b.c.d`.
pub proof fn law_parse_dotted_quad(a: u8, b: u8, c: u8, d: u8)
    ensures
        spec_parse_ipv4(dotted_quad(a, b, c, d)) == Some(ipv4_number(a, b, c, d)),
        spec_parse_ipv4(dotted_quad(a, b, c, d)) == Some(
            (a as int * 16777216 + b as int * 65536 + c as int * 256 + d as int) as u32,
        ),
{
    let s = dotted_quad(a, b, c, d);
    lemma_quad_octets(s, a, b, c, d);
    let e1 = decimal(a as nat).len() as int;
    let e2 = e1 + 1 + decimal(b as nat).len();
    let e3 = e2 + 1 + decimal(c as nat).len();
    lemma_quad_found(s, a, e1, b, e2, c, e3, d);
}

/// Only dotted quads parse, and each one to the number of its own octets.
pub proof fn law_parse_only_dotted_quads(s: Seq<u8>)
    ensures
        spec_parse_ipv4(s) matches Some(ip) ==> exists|a: u8, b: u8, c: u8, d: u8|
            s == dotted_quad(a, b, c, d) && ip == #[trigger] ipv4_number(a, b, c, d),
        spec_parse_ipv4(s) is None ==> !is_dotted_quad(s),
{
    if is_dotted_quad(s) {
        let (qa, qb, qc, qd) = choose|a: u8, b: u8, c: u8, d: u8| s == #[trigger] dotted_quad(a, b, c, d);
        assert(s == dotted_quad(qa, qb, qc, qd) && spec_parse_ipv4(s) == Some(ipv4_number(qa, qb, qc, qd)));
    }
}

/// Reading the decimal representation of `n` back as decimal digits gives
/// `n`; it is made of digits `0`..`9` only and has no leading zero.
pub proof fn law_decimal_reads_back(n: nat)
    ensures
        decimal(n).len() >= 1,
        forall|i: int| 0 <= i < decimal(n).len() ==> 48 <= #[trigger] decimal(n)[i] <= 57,
        digits_value(decimal(n)) == n,
        decimal(n).len() > 1 ==> decimal(n)[0] != 48u8,
{
    lemma_decimal(n);
    assert forall|i: int| 0 <= i < decimal(n).len() implies 48 <= #[trigger] decimal(n)[i] <= 57 by {
        assert(is_digit(decimal(n)[i]));
    }
}

/// Reads the octet that starts at `pos`: the whole run of digits there, which
/// must be one to three digits long, without a leading zero, and at most 255.
pub fn parse_octet(s: &[u8], pos: usize) -> (r: Option<(u8, usize)>)
    ensures
        r matches Some((v, end)) ==> octet_at(s@, pos as int, v, end as int),
        r is None ==> forall|v: u8, end: int| !#[trigger] octet_at(s@, pos as int, v, end),
{
    let len = s.len();
    if pos >= len {
        return None;
    }
    let mut i = pos;
    let mut value: u32 = 0;
    while i < len && i - pos < 4 && 48 <= s[i] && s[i] <= 57
        invariant
            pos <= i <= len,
            len == s@.len(),
            i - pos <= 4,
            all_digits(s@.subrange(pos as int, i as int)),
            value as nat == digits_value(s@.subrange(pos as int, i as int)),
            value < 10000,
            i - pos <= 1 ==> value < 10,
            i - pos <= 2 ==> value < 100,
            i - pos <= 3 ==> value < 1000,
        decreases len - i,
    {
        let ghost old_run = s@.subrange(pos as int, i as int);
        value = value * 10 + (s[i] - 48) as u32;
        i = i + 1;
        proof {
            let run = s@.subrange(pos as int, i as int);
            assert(run.drop_last() =~= old_run);
            assert(all_digits(run)) by {
                assert forall|k: int| 0 <= k < run.len() implies is_digit(#[trigger] run[k]) by {
                    if k < run.len() - 1 {
                        assert(run[k] == old_run[k]);
                    }
                }
            }
        }
    }
    let count = i - pos;
    let ghost run = s@.subrange(pos as int, i as int);
    if count == 0 || count == 4 || (count > 1 && s[pos] == 48) || value > 255 {
        proof {
            assert forall|v: u8, end: int| !#[trigger] octet_at(s@, pos as int, v, end) by {
                if octet_at(s@, pos as int, v, end) {
                    lemma_decimal(v as nat);
                    let t = decimal(v as nat);
                    assert(s@[pos as int] == t[0]);
                    if count == 4 {
                        assert(s@[end] == run[end - pos]);
                    } else if count != 0 {
                        if end < i {
                            assert(s@[end] == run[end - pos]);
                        } else if i < end {
                            assert(s@[i as int] == t[i - pos]);
                        }
                        assert(run =~= t);
                    }
                }
            }
        }
        return None;
    }
    proof {
        assert(is_canonical_number(run));
        lemma_canonical_is_decimal(run);
    }
    Some((value as u8, i))
}

/// Parses a dotted-decimal IPv4 address into its number, the first part
/// being the most significant byte.
pub fn parse_ipv4(s: &[u8]) -> (r: Option<u32>)
    ensures
        r == spec_parse_ipv4(s@),
{
    let len = s.len();
    let (a, p1) = match parse_octet(s, 0) {
        Some(x) => x,
        None => {
            proof { lemma_not_quad_at_first(s@); }
            return None;
        },
    };
    if p1 >= len || s[p1] != 46 {
        proof { lemma_not_quad_first_dot(s@, a, p1 as int); }
        return None;
    }
    let (b, p2) = match parse_octet(s, p1 + 1) {
        Some(x) => x,
        None => {
            proof { lemma_not_quad_second(s@, a, p1 as int); }
            return None;
        },
    };
    if p2 >= len || s[p2] != 46 {
        proof { lemma_not_quad_second_dot(s@, a, p1 as int, b, p2 as int); }
        return None;
    }
    let (c, p3) = match parse_octet(s, p2 + 1) {
        Some(x) => x,
        None => {
            proof { lemma_not_quad_third(s@, a, p1 as int, b, p2 as int); }
            return None;
        },
    };
    if p3 >= len || s[p3] != 46 {
        proof { lemma_not_quad_third_dot(s@, a, p1 as int, b, p2 as int, c, p3 as int); }
        return None;
    }
    let (d, p4) = match parse_octet(s, p3 + 1) {
        Some(x) => x,
        None => {
            proof { lemma_not_quad_fourth(s@, a, p1 as int, b, p2 as int, c, p3 as int); }
            return None;
        },
    };
    if p4 != len {
        proof { lemma_not_quad_end(s@, a, p1 as int, b, p2 as int, c, p3 as int, d, p4 as int); }
        return None;
    }
    proof { lemma_quad_found(s@, a, p1 as int, b, p2 as int, c, p3 as int, d); }
    Some((a as u32) * 16777216 + (b as u32) * 65536 + (c as u32) * 256 + (d as u32))
}

} // verus!
