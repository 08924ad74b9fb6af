//! Human-readable sizes in binary units.
use vstd::prelude::*;
use vstd::string::*;
use vstd::arithmetic::div_mod::{lemma_fundamental_div_mod, lemma_fundamental_div_mod_converse};
use crate::text::{digit_char, digit_str, digits, pow10, push_decimal};

verus! {

/// Which unit a size is written in: 0 for bytes, then kiB, MiB, GiB and TiB.
pub open spec fn unit_index(bytes: nat) -> nat {
    if bytes < 1024 {
        0
    } else if bytes < 1048576 {
        1
    } else if bytes < 1073741824 {
        2
    } else if bytes < 1099511627776 {
        3
    } else {
        4
    }
}

/// Bytes per unit `k`: 1024 to the power `k`.
pub open spec fn unit_scale(k: nat) -> nat {
    if k == 0 {
        1
    } else if k == 1 {
        1024
    } else if k == 2 {
        1048576
    } else if k == 3 {
        1073741824
    } else {
        1099511627776
    }
}

/// The symbol of unit `k`.
pub open spec fn unit_symbol(k: nat) -> Seq<char> {
    if k == 0 {
        seq!['B']
    } else if k == 1 {
        seq!['k', 'i', 'B']
    } else if k == 2 {
        seq!['M', 'i', 'B']
    } else if k == 3 {
        seq!['G', 'i', 'B']
    } else {
        seq!['T', 'i', 'B']
    }
}

/// `a / b` rounded to the nearest integer, halves to the even one.
pub open spec fn round_half_even(a: nat, b: nat) -> nat {
    let q = a / b;
    let r = a % b;
    if 2 * r > b || (2 * r == b && q % 2 == 1) {
        q + 1
    } else {
        q
    }
}

/// The last `w` decimal digits of `n`, leading zeros included.
pub open spec fn fixed_digits(n: nat, w: nat) -> Seq<char>
    decreases w,
{
    if w == 0 {
        Seq::empty()
    } else {
        fixed_digits(n / 10, (w - 1) as nat).push(digit_char(n % 10))
    }
}

/// The number `n / 10^d` written with `d` decimals.
pub open spec fn decimals_text(n: nat, d: nat) -> Seq<char> {
    digits(n / pow10(d)) + if d == 0 {
        Seq::empty()
    } else {
        seq!['.'] + fixed_digits(n % pow10(d), d)
    }
}

/// A size in the largest binary unit (up to TiB) that keeps it at least one:
/// whole bytes below 1024, otherwise the quotient by the unit rounded to `d`
/// decimals, halves to even; then a space and the unit's symbol.
pub open spec fn size_text(bytes: nat, d: nat) -> Seq<char> {
    let k = unit_index(bytes);
    let number = if k == 0 {
        digits(bytes)
    } else {
        decimals_text(round_half_even(bytes * pow10(d), unit_scale(k)), d)
    };
    number + seq![' '] + unit_symbol(k)
}

/// The number written by a list of decimal digits, most significant first.
pub open spec fn digits_value(s: Seq<u8>) -> nat
    decreases s.len(),
{
    if s.len() == 0 {
        0
    } else {
        digits_value(s.drop_last()) * 10 + s.last() as nat
    }
}

/// Every entry of `s` is a decimal digit.
pub open spec fn all_digits(s: Seq<u8>) -> bool {
    forall|i: int| 0 <= i < s.len() ==> s[i] < 10
}

/// The characters of a list of decimal digits.
pub open spec fn digits_text(s: Seq<u8>) -> Seq<char> {
    s.map_values(|x: u8| digit_char(x as nat))
}

proof fn lemma_pow10_positive(d: nat)
    ensures
        pow10(d) >= 1,
    decreases d,
{
    if d > 0 {
        lemma_pow10_positive((d - 1) as nat);
    }
}

/// A number written with `w` digits is below `10^w`.
proof fn lemma_digits_value_bound(s: Seq<u8>)
    requires
        all_digits(s),
    ensures
        digits_value(s) < pow10(s.len()),
    decreases s.len(),
{
    if s.len() > 0 {
        lemma_digits_value_bound(s.drop_last());
        let a = digits_value(s.drop_last());
        let p = pow10((s.len() - 1) as nat);
        assert(a * 10 + (s.last() as nat) < p * 10) by (nonlinear_arith)
            requires
                a < p,
                s.last() < 10,
        ;
    }
}

/// Digits written one after the other: the value of a concatenation.
proof fn lemma_digits_value_concat(a: Seq<u8>, b: Seq<u8>)
    ensures
        digits_value(a + b) == digits_value(a) * pow10(b.len()) + digits_value(b),
    decreases b.len(),
{
    if b.len() == 0 {
        assert(a + b =~= a);
        assert(pow10(0) == 1);
        assert(digits_value(a) * 1 == digits_value(a));
    } else {
        assert((a + b).drop_last() =~= a + b.drop_last());
        lemma_digits_value_concat(a, b.drop_last());
        let va = digits_value(a);
        let p = pow10((b.len() - 1) as nat);
        let vb = digits_value(b.drop_last());
        assert(pow10(b.len()) == 10 * p);
        assert((a + b).last() == b.last());
        assert(digits_value(a + b) == digits_value(a + b.drop_last()) * 10 + b.last() as nat);
        assert(digits_value(b) == vb * 10 + b.last() as nat);
        assert((va * p + vb) * 10 + b.last() as nat == va * (10 * p) + (vb * 10 + b.last() as nat))
            by (nonlinear_arith);
        assert(digits_value(a + b.drop_last()) == va * p + vb);
        assert(digits_value(a + b) == va * pow10(b.len()) + digits_value(b));
    }
}

/// The digits of a number below `10^w` are its `w` fixed digits.
proof fn lemma_fixed_digits(s: Seq<u8>)
    requires
        all_digits(s),
    ensures
        fixed_digits(digits_value(s), s.len()) == digits_text(s),
    decreases s.len(),
{
    if s.len() > 0 {
        let p = s.drop_last();
        lemma_fixed_digits(p);
        let v = digits_value(s);
        let x = s.last() as nat;
        lemma_fundamental_div_mod_converse(v as int, 10, digits_value(p) as int, x as int);
        assert(digits_text(s) =~= digits_text(p).push(digit_char(x)));
    }
}

/// Adds one to the number that `digs` writes; a carry out of the first digit
/// is returned, the digits then being all zero.
fn increment(digits: Vec<u8>) -> (r: (Vec<u8>, bool))
    requires
        all_digits(digits@),
    ensures
        all_digits(r.0@),
        r.0@.len() == digits@.len(),
        digits_value(r.0@) + (if r.1 { pow10(digits@.len()) } else { 0 }) == digits_value(digits@) + 1,
{
    let mut digs = digits;
    let ghost s0 = digs@;
    let n = digs.len();
    let mut j: usize = n;
    while j > 0 && digs[j - 1] == 9
        invariant
            j <= n,
            digs@.len() == n,
            s0.len() == n,
            all_digits(s0),
            forall|i: int| 0 <= i < j ==> digs@[i] == s0[i],
            forall|i: int| j <= i < n ==> #[trigger] digs@[i] == 0,
            forall|i: int| j <= i < n ==> #[trigger] s0[i] == 9,
        decreases j,
    {
        assert(s0[j - 1] == 9);
        digs.set(j - 1, 0);
        j -= 1;
    }
    let ghost nines = s0.subrange(j as int, n as int);
    let ghost zeros = digs@.subrange(j as int, n as int);
    proof {
        assert forall|i: int| 0 <= i < zeros.len() implies zeros[i] == 0 by {
            assert(zeros[i] == digs@[j + i]);
        }
        assert forall|i: int| 0 <= i < nines.len() implies nines[i] == 9 by {
            assert(s0[j + i] == 9);
        }
        lemma_all_same_digits(nines, 9);
        lemma_all_same_digits(zeros, 0);
    }
    if j == 0 {
        assert(s0 =~= nines);
        assert(digs@ =~= zeros);
        return (digs, true);
    }
    let x = digs[j - 1];
    assert(digs@[j - 1] == s0[j - 1]);
    assert(s0[j - 1] < 10);
    assert(x == s0[j - 1] && x < 10 && x != 9);
    digs.set(j - 1, x + 1);
    proof {
        let pre = s0.subrange(0, j - 1);
        let m = (n - j) as nat;
        assert(s0 =~= pre + seq![x] + nines);
        assert(digs@ =~= pre + seq![(x + 1) as u8] + zeros);
        lemma_digits_value_concat(pre + seq![x], nines);
        lemma_digits_value_concat(pre + seq![(x + 1) as u8], zeros);
        lemma_digits_value_concat(pre, seq![x]);
        lemma_digits_value_concat(pre, seq![(x + 1) as u8]);
        assert(seq![x].drop_last() =~= Seq::<u8>::empty());
        assert(seq![(x + 1) as u8].drop_last() =~= Seq::<u8>::empty());
        assert(pow10(0) == 1);
        assert(pow10(1) == 10);
        let v = digits_value(pre);
        let p = pow10(m);
        lemma_pow10_positive(m);
        assert(digits_value(Seq::<u8>::empty()) == 0);
        assert(seq![x].last() == x);
        assert(seq![(x + 1) as u8].last() == x + 1);
        assert(digits_value(seq![x]) == x);
        assert(digits_value(seq![(x + 1) as u8]) == x + 1);
        assert(digits_value(pre + seq![x]) == v * 10 + x);
        assert(digits_value(pre + seq![(x + 1) as u8]) == v * 10 + x + 1);
        assert(nines.len() == m && zeros.len() == m);
        assert(digits_value(s0) == (v * 10 + x) * p + (p - 1));
        assert(digits_value(digs@) == (v * 10 + x + 1) * p + 0);
        assert((v * 10 + x + 1) * p + 0 == (v * 10 + x) * p + (p - 1) + 1) by (nonlinear_arith)
            requires
                p >= 1,
        ;
    }
    (digs, false)
}

/// A run of one digit `x` (`0` or `9`) is worth zero, or one below a power of ten.
proof fn lemma_all_same_digits(s: Seq<u8>, x: u8)
    requires
        x == 0 || x == 9,
        forall|i: int| 0 <= i < s.len() ==> s[i] == x,
    ensures
        all_digits(s),
        x == 0 ==> digits_value(s) == 0,
        x == 9 ==> digits_value(s) + 1 == pow10(s.len()),
    decreases s.len(),
{
    if s.len() > 0 {
        lemma_all_same_digits(s.drop_last(), x);
    }
}

/// Appends `bytes / scale`, rounded to `d` decimals with halves to even.
fn push_scaled(s: &mut String, bytes: u64, scale: u64, d: usize)
    requires
        1024 <= scale <= 1099511627776,
    ensures
        final(s)@ == old(s)@ + decimals_text(round_half_even(bytes as nat * pow10(d as nat), scale as nat), d as nat),
{
    let q0 = bytes / scale;
    let mut r = bytes % scale;
    let mut digs: Vec<u8> = Vec::new();
    let mut i: usize = 0;
    proof {
        lemma_fundamental_div_mod(bytes as int, scale as int);
        assert(digits_value(digs@) == 0);
        assert(pow10(0) == 1);
        assert((q0 * 1 + 0) * scale + r == bytes as nat * 1 && q0 * 1024 <= bytes) by (nonlinear_arith)
            requires
                bytes == scale * q0 + r,
                scale >= 1024,
        ;
    }
    while i < d
        invariant
            1024 <= scale <= 1099511627776,
            i <= d,
            digs@.len() == i,
            all_digits(digs@),
            r < scale,
            q0 == bytes / scale,
            q0 * 1024 <= bytes,
            (q0 * pow10(i as nat) + digits_value(digs@)) * scale + r == bytes as nat * pow10(i as nat),
        decreases d - i,
    {
        let t = r * 10;
        let dg = t / scale;
        let ghost r0 = r;
        let ghost v0 = digits_value(digs@);
        let ghost p0 = pow10(i as nat);
        assert(dg < 10) by (nonlinear_arith)
            requires
                t == r0 * 10,
                r0 < scale,
                dg == t / scale,
                scale > 0,
        ;
        r = t % scale;
        let ghost d0 = digs@;
        digs.push(dg as u8);
        proof {
            assert(digs@.drop_last() =~= d0);
            assert(digits_value(digs@) == v0 * 10 + dg);
            assert(t == dg * scale + r) by (nonlinear_arith)
                requires
                    dg == t / scale,
                    r == t % scale,
                    scale > 0,
            ;
            assert((q0 * (10 * p0) + (v0 * 10 + dg)) * scale + r == bytes as nat * (10 * p0)) by (nonlinear_arith)
                requires
                    (q0 * p0 + v0) * scale + r0 == bytes as nat * p0,
                    t == r0 * 10,
                    t == dg * scale + r,
            ;
        }
        i += 1;
    }
    let ghost a = bytes as nat * pow10(d as nat);
    let ghost quotient = q0 * pow10(d as nat) + digits_value(digs@);
    proof {
        lemma_fundamental_div_mod_converse(a as int, scale as int, quotient as int, r as int);
    }
    let odd = if d == 0 {
        q0 % 2 == 1
    } else {
        digs[d - 1] % 2 == 1
    };
    proof {
        if d == 0 {
            assert(quotient == q0);
        } else {
            let v = digits_value(digs@.drop_last());
            let p = pow10((d - 1) as nat);
            assert(quotient == (q0 * p + v) * 10 + digs@.last()) by (nonlinear_arith)
                requires
                    quotient == q0 * (10 * p) + (v * 10 + digs@.last()),
            ;
            assert(quotient % 2 == digs@.last() % 2) by (nonlinear_arith)
                requires
                    quotient == (q0 * p + v) * 10 + digs@.last(),
            ;
        }
    }
    let up = r > scale - r || (r == scale - r && odd);
    let mut q = q0;
    let ghost n = round_half_even(a, scale as nat);
    assert(n == quotient + if up { 1nat } else { 0nat });
    if up {
        let (incremented, carry) = increment(digs);
        digs = incremented;
        if carry {
            q = q0 + 1;
            assert(q * pow10(d as nat) == q0 * pow10(d as nat) + pow10(d as nat)) by (nonlinear_arith)
                requires
                    q == q0 + 1,
            ;
        }
    }
    proof {
        lemma_digits_value_bound(digs@);
        lemma_fundamental_div_mod_converse(n as int, pow10(d as nat) as int, q as int, digits_value(digs@) as int);
        lemma_fixed_digits(digs@);
    }
    push_decimal(s, q);
    if d > 0 {
        proof {
            reveal_strlit(".");
        }
        s.append(".");
        let ghost base = s@;
        let mut j: usize = 0;
        while j < d
            invariant
                j <= d,
                digs@.len() == d,
                all_digits(digs@),
                s@ == base + digits_text(digs@.subrange(0, j as int)),
            decreases d - j,
        {
            s.append(digit_str(digs[j] as u64));
            assert(digits_text(digs@.subrange(0, j + 1)) =~= digits_text(digs@.subrange(0, j as int)).push(
                digit_char(digs@[j as int] as nat),
            ));
            j += 1;
        }
        assert(digs@.subrange(0, d as int) =~= digs@);
    }
    assert(s@ =~= old(s)@ + decimals_text(n, d as nat));
}

/// A size in the largest binary unit (up to TiB) that keeps it at least one,
/// with `decimals` decimals, as `size_text` describes.
pub fn format_size(bytes: u64, decimals: usize) -> (r: String)
    ensures
        r@ == size_text(bytes as nat, decimals as nat),
{
    let mut s = String::new();
    proof {
        reveal_strlit(" B");
        reveal_strlit(" kiB");
        reveal_strlit(" MiB");
        reveal_strlit(" GiB");
        reveal_strlit(" TiB");
    }
    if bytes < 1024 {
        push_decimal(&mut s, bytes);
        s.append(" B");
    } else if bytes < 1048576 {
        push_scaled(&mut s, bytes, 1024, decimals);
        s.append(" kiB");
    } else if bytes < 1073741824 {
        push_scaled(&mut s, bytes, 1048576, decimals);
        s.append(" MiB");
    } else if bytes < 1099511627776 {
        push_scaled(&mut s, bytes, 1073741824, decimals);
        s.append(" GiB");
    } else {
        push_scaled(&mut s, bytes, 1099511627776, decimals);
        s.append(" TiB");
    }
    assert(s@ =~= size_text(bytes as nat, decimals as nat));
    s
}

} // verus!
