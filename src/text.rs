//! Byte-level text pieces of the wire format: decimal integers and
//! markup escaping.

use vstd::prelude::*;
use vstd::utf8::*;

verus! {

/// The ASCII digits of `n` in base ten, without leading zeros.
pub open spec fn dec_bytes(n: nat) -> Seq<u8>
    decreases n,
{
    if n < 10 {
        seq![(48 + n) as u8]
    } else {
        dec_bytes(n / 10).push((48 + n % 10) as u8)
    }
}

/// A signed decimal: a minus sign before the digits of a negative number.
pub open spec fn signed_dec_bytes(n: int) -> Seq<u8> {
    if n < 0 {
        seq![45u8] + dec_bytes((-n) as nat)
    } else {
        dec_bytes(n as nat)
    }
}

/// `n` ASCII zeros.
pub open spec fn zeros(n: nat) -> Seq<u8> {
    Seq::new(n, |i: int| 48u8)
}

/// The digits of `magnitude` with a decimal point placed `scale` digits
/// from the right, padded with zeros so that at least one digit stands
/// before the point. A scale of zero gives no point.
pub open spec fn fixed_digits(magnitude: nat, scale: nat) -> Seq<u8> {
    let d = dec_bytes(magnitude);
    if scale == 0 {
        d
    } else if d.len() > scale {
        d.take(d.len() - scale) + seq![46u8] + d.skip(d.len() - scale)
    } else {
        seq![48u8, 46u8] + zeros((scale - d.len()) as nat) + d
    }
}

/// The fixed-point decimal text of `units / 10^scale`.
pub open spec fn fixed_bytes(units: int, scale: nat) -> Seq<u8> {
    if units < 0 {
        seq![45u8] + fixed_digits((-units) as nat, scale)
    } else {
        fixed_digits(units as nat, scale)
    }
}

/// The escaped form of one byte: `&`, `<` and `>` become entities.
pub open spec fn escape_byte(b: u8) -> Seq<u8> {
    if b == 38 {
        seq![38u8, 97u8, 109u8, 112u8, 59u8]
    } else if b == 60 {
        seq![38u8, 108u8, 116u8, 59u8]
    } else if b == 62 {
        seq![38u8, 103u8, 116u8, 59u8]
    } else {
        seq![b]
    }
}

/// Every byte of `s` escaped, in order.
pub open spec fn escape_bytes(s: Seq<u8>) -> Seq<u8>
    decreases s.len(),
{
    if s.len() == 0 {
        Seq::empty()
    } else {
        escape_bytes(s.drop_last()) + escape_byte(s.last())
    }
}

/// Appends the decimal digits of `n` to `out`.
pub fn push_decimal(out: &mut Vec<u8>, n: u64)
    ensures
        final(out)@ == old(out)@ + dec_bytes(n as nat),
    decreases n,
{
    if n >= 10 {
        push_decimal(out, n / 10);
    }
    let d: u64 = n % 10;
    out.push((48 + d) as u8);
    assert(final(out)@ =~= old(out)@ + dec_bytes(n as nat));
}

/// Appends the fixed-point text of `units / 10^scale` to `out`.
pub fn push_fixed(out: &mut Vec<u8>, units: i64, scale: u32)
    ensures
        final(out)@ == old(out)@ + fixed_bytes(units as int, scale as nat),
{
    let magnitude: u64 = if units == i64::MIN {
        9223372036854775808u64
    } else if units < 0 {
        (-units) as u64
    } else {
        units as u64
    };
    let mut d: Vec<u8> = Vec::new();
    push_decimal(&mut d, magnitude);
    assert(d@ =~= dec_bytes(magnitude as nat));
    let ghost start = out@;
    if units < 0 {
        out.push(45u8);
    }
    let ghost mid = out@;
    let n: usize = d.len();
    if scale == 0 {
        push_all(out, d.as_slice());
    } else if n as u64 > scale as u64 {
        let cut: usize = n - scale as usize;
        let mut i: usize = 0;
        while i < n
            invariant
                n == d@.len(),
                cut == d@.len() - scale,
                0 <= i <= n,
                out@ == mid + if i <= cut {
                    d@.take(i as int)
                } else {
                    d@.take(cut as int) + seq![46u8] + d@.subrange(cut as int, i as int)
                },
            decreases n - i,
        {
            if i == cut {
                out.push(46u8);
            }
            out.push(d[i]);
            i = i + 1;
            assert(out@ =~= mid + if i <= cut {
                d@.take(i as int)
            } else {
                d@.take(cut as int) + seq![46u8] + d@.subrange(cut as int, i as int)
            });
        }
        assert(d@.subrange(cut as int, n as int) =~= d@.skip(cut as int));
    } else {
        out.push(48u8);
        out.push(46u8);
        let pad: u32 = scale - n as u32;
        let mut k: u32 = 0;
        while k < pad
            invariant
                0 <= k <= pad,
                out@ == mid + seq![48u8, 46u8] + zeros(k as nat),
            decreases pad - k,
        {
            out.push(48u8);
            k = k + 1;
            assert(out@ =~= mid + seq![48u8, 46u8] + zeros(k as nat));
        }
        push_all(out, d.as_slice());
    }
    assert(final(out)@ =~= start + fixed_bytes(units as int, scale as nat));
}

/// Appends the signed decimal form of `n` to `out`.
pub fn push_signed_decimal(out: &mut Vec<u8>, n: i64)
    ensures
        final(out)@ == old(out)@ + signed_dec_bytes(n as int),
{
    if n < 0 {
        out.push(45u8);
        let m: u64 = if n == i64::MIN {
            9223372036854775808u64
        } else {
            (-n) as u64
        };
        push_decimal(out, m);
        assert(final(out)@ =~= old(out)@ + signed_dec_bytes(n as int));
    } else {
        push_decimal(out, n as u64);
    }
}

/// Appends `s` to `out` with `&`, `<` and `>` escaped.
pub fn push_escaped(out: &mut Vec<u8>, s: &[u8])
    ensures
        final(out)@ == old(out)@ + escape_bytes(s@),
{
    let mut i: usize = 0;
    while i < s.len()
        invariant
            0 <= i <= s@.len(),
            out@ == old(out)@ + escape_bytes(s@.take(i as int)),
        decreases s@.len() - i,
    {
        let b: u8 = s[i];
        if b == 38 {
            out.push(38u8);
            out.push(97u8);
            out.push(109u8);
            out.push(112u8);
            out.push(59u8);
        } else if b == 60 {
            out.push(38u8);
            out.push(108u8);
            out.push(116u8);
            out.push(59u8);
        } else if b == 62 {
            out.push(38u8);
            out.push(103u8);
            out.push(116u8);
            out.push(59u8);
        } else {
            out.push(b);
        }
        assert(s@.take(i + 1).drop_last() =~= s@.take(i as int));
        i = i + 1;
        assert(out@ =~= old(out)@ + escape_bytes(s@.take(i as int)));
    }
    assert(s@.take(i as int) =~= s@);
}

/// Appends the UTF-8 encoding of `c` to `out`.
pub fn push_char(out: &mut Vec<u8>, c: char)
    ensures
        final(out)@ == old(out)@ + encode_utf8(seq![c]),
{
    let v: u32 = c as u32;
    proof {
        char_is_scalar(c);
        assert(seq![c].drop_first() =~= Seq::<char>::empty());
        assert(seq![c][0] == c);
        assert(encode_utf8(Seq::<char>::empty()) =~= Seq::<u8>::empty());
        assert(encode_utf8(seq![c]) =~= encode_scalar(v));
    }
    if v <= 0x7F {
        out.push((v & 0x7F) as u8);
    } else if v <= 0x7FF {
        out.push(0xC0 | ((v >> 6) & 0x1F) as u8);
        out.push(0x80 | (v & 0x3F) as u8);
    } else if v <= 0xFFFF {
        out.push(0xE0 | ((v >> 12) & 0x0F) as u8);
        out.push(0x80 | ((v >> 6) & 0x3F) as u8);
        out.push(0x80 | (v & 0x3F) as u8);
    } else {
        out.push(0xF0 | ((v >> 18) & 0x7) as u8);
        out.push(0x80 | ((v >> 12) & 0x3F) as u8);
        out.push(0x80 | ((v >> 6) & 0x3F) as u8);
        out.push(0x80 | (v & 0x3F) as u8);
    }
    assert(final(out)@ =~= old(out)@ + encode_scalar(v));
}

/// Appends all of `s` to `out`.
pub fn push_all(out: &mut Vec<u8>, s: &[u8])
    ensures
        final(out)@ == old(out)@ + s@,
{
    let mut i: usize = 0;
    while i < s.len()
        invariant
            0 <= i <= s@.len(),
            out@ == old(out)@ + s@.take(i as int),
        decreases s@.len() - i,
    {
        out.push(s[i]);
        i = i + 1;
        assert(out@ =~= old(out)@ + s@.take(i as int));
    }
    assert(s@.take(i as int) =~= s@);
}

/// Every byte is ASCII.
pub open spec fn ascii_bytes(s: Seq<u8>) -> bool {
    forall|i: int| 0 <= i < s.len() ==> #[trigger] s[i] < 0x80
}

/// ASCII bytes are valid UTF-8.
pub proof fn lemma_ascii_valid(s: Seq<u8>)
    requires
        ascii_bytes(s),
    ensures
        valid_utf8(s),
    decreases s.len(),
{
    if s.len() > 0 {
        let b = s[0];
        assert(b < 0x80);
        assert(((b & 0x7F) as u32) <= 0x7F) by (bit_vector);
        assert(valid_first_scalar(s));
        let rest = s.subrange(1, s.len() as int);
        assert(pop_first_scalar(s) =~= rest);
        lemma_ascii_valid(rest);
    }
}

/// The decimal digits are ASCII digits.
pub proof fn lemma_dec_ascii(n: nat)
    ensures
        ascii_bytes(dec_bytes(n)),
        forall|i: int| 0 <= i < dec_bytes(n).len() ==> 48 <= #[trigger] dec_bytes(n)[i] <= 57,
    decreases n,
{
    if n >= 10 {
        lemma_dec_ascii(n / 10);
    }
}

/// A signed decimal is ASCII digits and a minus sign.
pub proof fn lemma_signed_dec_ascii(n: int)
    ensures
        ascii_bytes(signed_dec_bytes(n)),
        forall|i: int|
            0 <= i < signed_dec_bytes(n).len() ==> 45 <= #[trigger] signed_dec_bytes(n)[i] <= 57,
{
    if n < 0 {
        lemma_dec_ascii((-n) as nat);
        let s = signed_dec_bytes(n);
        assert forall|i: int| 0 <= i < s.len() implies 45 <= #[trigger] s[i] <= 57 by {
            if i > 0 {
                assert(s[i] == dec_bytes((-n) as nat)[i - 1]);
            }
        }
    } else {
        lemma_dec_ascii(n as nat);
    }
}

/// Fixed-point text is ASCII.
pub proof fn lemma_fixed_ascii(units: int, scale: nat)
    ensures
        ascii_bytes(fixed_bytes(units, scale)),
{
    let m: nat = if units < 0 { (-units) as nat } else { units as nat };
    lemma_dec_ascii(m);
    let d = dec_bytes(m);
    let f = fixed_digits(m, scale);
    assert forall|i: int| 0 <= i < f.len() implies #[trigger] f[i] < 0x80 by {
        if scale != 0 && d.len() > scale {
            let c = d.len() - scale;
            if i > c {
                assert(f[i] == d[i - 1]);
            } else if i < c {
                assert(f[i] == d[i]);
            }
        } else if scale != 0 {
            let z = 2 + scale - d.len();
            if i >= z {
                assert(f[i] == d[i - z]);
            }
        }
    }
    let r = fixed_bytes(units, scale);
    assert forall|i: int| 0 <= i < r.len() implies #[trigger] r[i] < 0x80 by {
        if units < 0 && i > 0 {
            assert(r[i] == f[i - 1]);
        }
    }
}

/// The digits of a number are never empty and begin with a digit.
pub proof fn lemma_dec_first(n: nat)
    ensures
        dec_bytes(n).len() >= 1,
        48 <= dec_bytes(n)[0] <= 57,
        n >= 10 ==> dec_bytes(n).len() >= 2,
    decreases n,
{
    if n >= 10 {
        lemma_dec_first(n / 10);
    }
}

/// Different numbers have different digits.
pub proof fn lemma_dec_injective(a: nat, b: nat)
    requires
        dec_bytes(a) == dec_bytes(b),
    ensures
        a == b,
    decreases a,
{
    lemma_dec_first(a);
    lemma_dec_first(b);
    if a >= 10 && b >= 10 {
        assert(dec_bytes(a).drop_last() =~= dec_bytes(a / 10));
        assert(dec_bytes(b).drop_last() =~= dec_bytes(b / 10));
        lemma_dec_injective(a / 10, b / 10);
        assert(dec_bytes(a).last() == dec_bytes(b).last());
        assert(dec_bytes(a).last() == (48 + a % 10) as u8);
        assert(dec_bytes(b).last() == (48 + b % 10) as u8);
        assert(a % 10 == b % 10);
        assert(a == 10 * (a / 10) + a % 10);
        assert(b == 10 * (b / 10) + b % 10);
    } else if a < 10 && b < 10 {
        assert(dec_bytes(a)[0] == dec_bytes(b)[0]);
    }
}

/// Different integers have different signed decimals.
pub proof fn lemma_signed_dec_injective(a: int, b: int)
    requires
        signed_dec_bytes(a) == signed_dec_bytes(b),
    ensures
        a == b,
{
    let ma: nat = if a < 0 { (-a) as nat } else { a as nat };
    let mb: nat = if b < 0 { (-b) as nat } else { b as nat };
    lemma_dec_first(ma);
    lemma_dec_first(mb);
    if a < 0 && b < 0 {
        assert(signed_dec_bytes(a).drop_first() =~= dec_bytes(ma));
        assert(signed_dec_bytes(b).drop_first() =~= dec_bytes(mb));
        lemma_dec_injective(ma, mb);
    } else if a >= 0 && b >= 0 {
        lemma_dec_injective(ma, mb);
    } else {
        assert(signed_dec_bytes(a)[0] == signed_dec_bytes(b)[0]);
    }
}

/// Only the number zero has a leading zero digit.
pub proof fn lemma_dec_lead(n: nat)
    ensures
        dec_bytes(n)[0] == 48 ==> n == 0,
    decreases n,
{
    lemma_dec_first(n);
    if n >= 10 {
        lemma_dec_lead(n / 10);
        lemma_dec_first(n / 10);
        assert(dec_bytes(n)[0] == dec_bytes(n / 10)[0]);
    }
}

/// The shape of fixed-point digits: a point `scale` bytes from the end
/// (none at scale zero, and never first), digits everywhere else.
pub open spec fn fixed_shape(f: Seq<u8>, scale: nat) -> bool {
    &&& f.len() > scale
    &&& scale > 0 ==> f.len() - scale - 1 >= 1
    &&& forall|i: int|
        0 <= i < f.len() ==> if scale > 0 && i == f.len() - scale - 1 {
            #[trigger] f[i] == 46
        } else {
            48 <= f[i] <= 57
        }
}

pub proof fn lemma_fixed_shape(m: nat, scale: nat)
    ensures
        fixed_shape(fixed_digits(m, scale), scale),
{
    lemma_dec_ascii(m);
    lemma_dec_first(m);
    let d = dec_bytes(m);
    let f = fixed_digits(m, scale);
    if scale != 0 && d.len() > scale {
        let c = d.len() - scale;
        assert forall|i: int| 0 <= i < f.len() implies if scale > 0 && i == f.len() - scale - 1 {
            #[trigger] f[i] == 46
        } else {
            48 <= f[i] <= 57
        } by {
            if i > c {
                assert(f[i] == d[i - 1]);
            } else if i < c {
                assert(f[i] == d[i]);
            }
        }
    } else if scale != 0 {
        let z = 2 + scale - d.len();
        assert forall|i: int| 0 <= i < f.len() implies if scale > 0 && i == f.len() - scale - 1 {
            #[trigger] f[i] == 46
        } else {
            48 <= f[i] <= 57
        } by {
            if i >= z {
                assert(f[i] == d[i - z]);
            }
        }
    }
}

/// Fixed-point digits give back their scale and their number.
pub proof fn lemma_fixed_digits_injective(m1: nat, s1: nat, m2: nat, s2: nat)
    requires
        fixed_digits(m1, s1) == fixed_digits(m2, s2),
    ensures
        m1 == m2,
        s1 == s2,
{
    let f = fixed_digits(m1, s1);
    lemma_fixed_shape(m1, s1);
    lemma_fixed_shape(m2, s2);
    if s1 != s2 {
        if s1 < s2 {
            let k = f.len() - s2 - 1;
            assert(f[k] == 46);
        } else {
            let k = f.len() - s1 - 1;
            assert(f[k] == 46);
        }
    }
    let d1 = dec_bytes(m1);
    let d2 = dec_bytes(m2);
    lemma_dec_first(m1);
    lemma_dec_first(m2);
    lemma_dec_lead(m1);
    lemma_dec_lead(m2);
    if s1 == 0 {
        lemma_dec_injective(m1, m2);
    } else if d1.len() > s1 && d2.len() > s1 {
        assert(d1 =~= f.take(d1.len() - s1) + f.skip(d1.len() - s1 + 1));
        assert(d2 =~= f.take(d2.len() - s1) + f.skip(d2.len() - s1 + 1));
        lemma_dec_injective(m1, m2);
    } else if d1.len() <= s1 && d2.len() <= s1 {
        let z1 = 2 + s1 - d1.len();
        let z2 = 2 + s1 - d2.len();
        if d1.len() < d2.len() {
            assert(f[z2] == d2[0]);
        } else if d2.len() < d1.len() {
            assert(f[z1] == d1[0]);
        }
        assert(d1 =~= f.skip(z1));
        assert(d2 =~= f.skip(z2));
        lemma_dec_injective(m1, m2);
    } else if d1.len() > s1 {
        assert(f[0] == d1[0]);
    } else {
        assert(f[0] == d2[0]);
    }
}

/// Fixed-point text gives back its units and its scale.
pub proof fn lemma_fixed_injective(u1: int, s1: nat, u2: int, s2: nat)
    requires
        fixed_bytes(u1, s1) == fixed_bytes(u2, s2),
    ensures
        u1 == u2,
        s1 == s2,
{
    let m1: nat = if u1 < 0 { (-u1) as nat } else { u1 as nat };
    let m2: nat = if u2 < 0 { (-u2) as nat } else { u2 as nat };
    lemma_fixed_shape(m1, s1);
    lemma_fixed_shape(m2, s2);
    let f1 = fixed_digits(m1, s1);
    let f2 = fixed_digits(m2, s2);
    assert(0 != f1.len() - s1 - 1 || s1 == 0);
    assert(0 != f2.len() - s2 - 1 || s2 == 0);
    assert(48 <= f1[0] <= 57);
    assert(48 <= f2[0] <= 57);
    if u1 < 0 && u2 < 0 {
        assert(f1 =~= fixed_bytes(u1, s1).drop_first());
        assert(f2 =~= fixed_bytes(u2, s2).drop_first());
        lemma_fixed_digits_injective(m1, s1, m2, s2);
    } else if u1 >= 0 && u2 >= 0 {
        lemma_fixed_digits_injective(m1, s1, m2, s2);
    } else {
        assert(fixed_bytes(u1, s1)[0] == fixed_bytes(u2, s2)[0]);
    }
}

/// Fixed-point text has no `<`.
pub proof fn lemma_fixed_no_lt(u: int, scale: nat)
    ensures
        forall|i: int| 0 <= i < fixed_bytes(u, scale).len() ==> #[trigger] fixed_bytes(u, scale)[i] != 60,
{
    let m: nat = if u < 0 { (-u) as nat } else { u as nat };
    lemma_fixed_shape(m, scale);
    let f = fixed_digits(m, scale);
    let b = fixed_bytes(u, scale);
    assert forall|i: int| 0 <= i < b.len() implies #[trigger] b[i] != 60 by {
        if u < 0 {
            if i > 0 {
                assert(b[i] == f[i - 1]);
            }
        } else {
            assert(b[i] == f[i]);
        }
    }
}

/// Escaping one byte, then the rest.
pub proof fn lemma_escape_front(s: Seq<u8>)
    requires
        s.len() > 0,
    ensures
        escape_bytes(s) == escape_byte(s[0]) + escape_bytes(s.drop_first()),
{
    assert(s =~= seq![s[0]] + s.drop_first());
    lemma_escape_concat(seq![s[0]], s.drop_first());
    assert(seq![s[0]].drop_last() =~= Seq::<u8>::empty());
    assert(seq![s[0]].last() == s[0]);
    assert(escape_bytes(Seq::<u8>::empty()) =~= Seq::<u8>::empty());
    assert(escape_bytes(seq![s[0]]) == escape_bytes(Seq::<u8>::empty()) + escape_byte(s[0]));
    assert(escape_bytes(seq![s[0]]) =~= escape_byte(s[0]));
}

/// Escaped text contains no `<`.
pub proof fn lemma_escape_no_lt(s: Seq<u8>)
    ensures
        forall|i: int| 0 <= i < escape_bytes(s).len() ==> #[trigger] escape_bytes(s)[i] != 60,
    decreases s.len(),
{
    if s.len() > 0 {
        lemma_escape_no_lt(s.drop_last());
        let e = escape_bytes(s.drop_last());
        let t = escape_byte(s.last());
        assert forall|i: int| 0 <= i < (e + t).len() implies #[trigger] (e + t)[i] != 60 by {
            if i >= e.len() {
                assert(t[i - e.len()] != 60);
            }
        }
    }
}

/// Escaping loses nothing: different texts escape differently.
pub proof fn lemma_escape_injective(a: Seq<u8>, b: Seq<u8>)
    requires
        escape_bytes(a) == escape_bytes(b),
    ensures
        a == b,
    decreases a.len(),
{
    if a.len() == 0 && b.len() == 0 {
        assert(a =~= b);
    } else if a.len() == 0 {
        lemma_escape_front(b);
    } else if b.len() == 0 {
        lemma_escape_front(a);
    } else {
        lemma_escape_front(a);
        lemma_escape_front(b);
        let ea = escape_byte(a[0]);
        let eb = escape_byte(b[0]);
        let e = escape_bytes(a);
        assert(e[0] == ea[0] && e[0] == eb[0]);
        if a[0] != b[0] {
            assert(e[1] == ea[1] && e[1] == eb[1]);
        }
        assert(a[0] == b[0]);
        assert(e.skip(ea.len() as int) =~= escape_bytes(a.drop_first()));
        assert(escape_bytes(b).skip(eb.len() as int) =~= escape_bytes(b.drop_first()));
        lemma_escape_injective(a.drop_first(), b.drop_first());
        assert(a =~= seq![a[0]] + a.drop_first());
        assert(b =~= seq![b[0]] + b.drop_first());
    }
}

/// Escaping distributes over concatenation.
pub proof fn lemma_escape_concat(a: Seq<u8>, b: Seq<u8>)
    ensures
        escape_bytes(a + b) == escape_bytes(a) + escape_bytes(b),
    decreases b.len(),
{
    if b.len() == 0 {
        assert(a + b =~= a);
        assert(escape_bytes(a) + escape_bytes(b) =~= escape_bytes(a));
    } else {
        assert((a + b).drop_last() =~= a + b.drop_last());
        assert((a + b).last() == b.last());
        lemma_escape_concat(a, b.drop_last());
        assert(escape_bytes(a + b) =~= escape_bytes(a) + escape_bytes(b));
    }
}

/// Bytes outside ASCII are left as they are.
pub proof fn lemma_escape_keeps_high(s: Seq<u8>)
    requires
        forall|i: int| 0 <= i < s.len() ==> #[trigger] s[i] >= 0x80,
    ensures
        escape_bytes(s) == s,
    decreases s.len(),
{
    if s.len() > 0 {
        lemma_escape_keeps_high(s.drop_last());
        assert(escape_bytes(s) =~= s);
    }
}

/// Escaping ASCII gives ASCII.
pub proof fn lemma_escape_ascii(s: Seq<u8>)
    requires
        ascii_bytes(s),
    ensures
        ascii_bytes(escape_bytes(s)),
    decreases s.len(),
{
    if s.len() > 0 {
        lemma_escape_ascii(s.drop_last());
        let e = escape_bytes(s.drop_last());
        let t = escape_byte(s.last());
        assert forall|i: int| 0 <= i < (e + t).len() implies #[trigger] (e + t)[i] < 0x80 by {
            if i >= e.len() {
                assert(s.last() < 0x80);
            }
        }
    }
}

/// The UTF-8 of one character, with markup escaped, is valid UTF-8.
proof fn lemma_escape_scalar_valid(c: char)
    ensures
        valid_utf8(escape_bytes(encode_scalar(c as u32))),
{
    let v = c as u32;
    let bytes = encode_scalar(v);
    char_is_scalar(c);
    if v <= 0x7F {
        assert(((v & 0x7F) as u8) < 0x80) by (bit_vector);
        assert(ascii_bytes(bytes));
        lemma_escape_ascii(bytes);
        lemma_ascii_valid(escape_bytes(bytes));
    } else {
        assert forall|x: u8| #![auto] (0xC0u8 | x) >= 0x80u8 && (0xE0u8 | x) >= 0x80u8 && (0xF0u8
            | x) >= 0x80u8 && (0x80u8 | x) >= 0x80u8 by {
            assert((0xC0u8 | x) >= 0x80u8 && (0xE0u8 | x) >= 0x80u8 && (0xF0u8 | x) >= 0x80u8 && (
            0x80u8 | x) >= 0x80u8) by (bit_vector);
        }
        assert(forall|i: int| 0 <= i < bytes.len() ==> #[trigger] bytes[i] >= 0x80);
        lemma_escape_keeps_high(bytes);
        assert(encode_utf8(seq![c]) =~= bytes) by {
            assert(seq![c].drop_first() =~= Seq::<char>::empty());
            assert(seq![c][0] == c);
            assert(encode_utf8(Seq::<char>::empty()) =~= Seq::<u8>::empty());
            assert(encode_utf8(seq![c]) == encode_scalar(v) + encode_utf8(Seq::<char>::empty()));
        }
        encode_utf8_valid_utf8(seq![c]);
    }
}

/// UTF-8 text with markup escaped is still valid UTF-8.
pub proof fn lemma_escape_valid(cs: Seq<char>)
    ensures
        valid_utf8(escape_bytes(encode_utf8(cs))),
    decreases cs.len(),
{
    if cs.len() > 0 {
        let head = encode_scalar(cs[0] as u32);
        let tail = encode_utf8(cs.drop_first());
        lemma_escape_concat(head, tail);
        lemma_escape_scalar_valid(cs[0]);
        lemma_escape_valid(cs.drop_first());
        valid_utf8_concat(escape_bytes(head), escape_bytes(tail));
    }
}

} // verus!
