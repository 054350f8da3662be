//! Numbers, measurements and records as the tools read them.

use vstd::prelude::*;
use crate::corpus::{le16, le32, ordered, percentile_of};
use crate::text::{digits_value, is_digit, signed_number, unsigned_number};
use crate::vectors::{be32, records_found, RecordKind};

verus! {

/// The value of digits does not depend on what follows them.
proof fn lemma_digits(s: Seq<char>, t: Seq<char>, n: int)
    requires
        0 <= n <= s.len(),
        n <= t.len(),
        forall|i: int| 0 <= i < n ==> s[i] == t[i],
    ensures
        digits_value(s, n) == digits_value(t, n),
    decreases n,
{
    if n > 0 {
        lemma_digits(s, t, n - 1);
    }
}

/// Numbers are decimal: one more digit behind a number makes it ten times as large and adds
/// the digit. A minus in front makes it negative, a plus changes nothing, and a text
/// without digits is no number.
pub proof fn law_numbers_are_decimal(s: Seq<char>, d: char)
    requires
        forall|i: int| 0 <= i < s.len() ==> is_digit(#[trigger] s[i]),
        is_digit(d),
    ensures
        s.len() == 0 ==> signed_number(s) is None && signed_number(s.push(d)) == Some(
            d as int - '0' as int,
        ),
        s.len() > 0 ==> {
            let v = signed_number(s)->Some_0;
            &&& signed_number(s) is Some
            &&& signed_number(s.push(d)) == Some(10 * v + (d as int - '0' as int))
            &&& signed_number(seq!['-'] + s) == Some(-v)
            &&& signed_number(seq!['+'] + s) == Some(v)
            &&& unsigned_number(s) == Some(v)
            &&& unsigned_number(seq!['+'] + s) == Some(v)
            &&& unsigned_number(seq!['-'] + s) is None
        },
{
    let t = s.push(d);
    assert(s.skip(0) =~= s);
    assert(t.skip(0) =~= t);
    assert((seq!['-'] + s).skip(1) =~= s);
    assert((seq!['+'] + s).skip(1) =~= s);
    assert forall|i: int| 0 <= i < t.len() implies is_digit(#[trigger] t[i]) by {
        if i < s.len() {
            assert(t[i] == s[i]);
        }
    }
    assert(digits_value(s, 0) == 0 && digits_value(t, 0) == 0);
    lemma_digits(s, t, s.len() as int);
    assert(digits_value(t, t.len() as int) == 10 * digits_value(t, t.len() - 1) + (d as int
        - '0' as int));
    if s.len() > 0 {
        assert(is_digit(s[0]));
        assert(t[0] == s[0]);
        let minus = seq!['-'] + s;
        assert(minus[0] == '-');
        assert(minus.skip(0) =~= minus);
        assert(!is_digit(minus.skip(0)[0]));
    }
}

/// Percentiles of ordered measurements: the first is the smallest, the hundredth the
/// largest, and they never fall in between.
pub proof fn law_percentiles(v: Seq<u128>, p: int, q: int)
    requires
        v.len() >= 1,
        ordered(v),
        0 <= p <= q <= 100,
    ensures
        percentile_of(v, 0) == v[0],
        percentile_of(v, 100) == v[v.len() - 1],
        percentile_of(v, p) <= percentile_of(v, q),
        exists|i: int|
            0 <= i < v.len() && percentile_of(v, p) == #[trigger] v[i] && 100 * i <= (v.len() - 1)
                * p < 100 * i + 100,
{
    let n = v.len() - 1;
    assert(0 <= n * p <= n * q <= n * 100) by (nonlinear_arith)
        requires
            0 <= p <= q <= 100,
            0 <= n,
    ;
    assert(n * 0 == 0);
    let i = n * p / 100;
    assert(percentile_of(v, p) == v[i]);
}

/// Numbers of more than one byte: in packet files the first byte counts least, in vector
/// files it counts most.
pub proof fn law_byte_orders(s: Seq<u8>, t: Seq<u8>, at: int)
    requires
        0 <= at,
        at + 4 <= s.len(),
        t == s.update(at, t[at]),
        s[at] < t[at],
    ensures
        le16(t, at) - le16(s, at) == t[at] - s[at],
        le32(t, at) - le32(s, at) == t[at] - s[at],
        be32(t, at) - be32(s, at) == 0x100_0000 * (t[at] - s[at]),
{
}

/// The records of a vector file lie one behind the other, each with its bytes behind its
/// head, and all of them inside of the file.
pub proof fn law_records_follow_each_other(kind: RecordKind, s: Seq<u8>, at: int, i: int)
    requires
        0 <= at,
        s.len() <= usize::MAX,
        0 <= i < records_found(kind, s, at).0.len(),
    ensures
        ({
            let r = records_found(kind, s, at).0;
            let head = 4 * kind.numbers();
            let end = r[i].from + r[i].len;
            &&& end <= s.len()
            &&& r[i].from >= at + head
            &&& i == 0 ==> r[i].from == at + head
            &&& i + 1 < r.len() ==> r[i + 1].from == end + head
            &&& r[i].first == be32(s, r[i].from - head)
            &&& r[i].second == be32(s, r[i].from - head + 4)
        }),
    decreases s.len() - at,
{
    let head = 4 * kind.numbers();
    let r = kind.record(s, at);
    let end = at + head + r.len;
    let rest = records_found(kind, s, end).0;
    let all = records_found(kind, s, at).0;
    assert(all =~= seq![r] + rest);
    assert(all[0] == r);
    if i > 0 {
        assert(all[i] == rest[i - 1]);
        law_records_follow_each_other(kind, s, end, i - 1);
        if i + 1 < all.len() {
            assert(all[i + 1] == rest[i]);
        }
    } else if all.len() > 1 {
        assert(all[1] == rest[0]);
        law_records_follow_each_other(kind, s, end, 0);
    }
}

} // verus!
