//! Little-endian digit strings: the value of a sequence of digits in a given base,
//! how values of concatenations combine, and uniqueness of the digits.
use vstd::prelude::*;
use vstd::arithmetic::power::*;
use vstd::arithmetic::div_mod::*;
use vstd::arithmetic::mul::*;

verus! {

/// The value of little-endian digits d in the given base: d[0] + base * d[1] + base^2 * d[2] + ...
pub open spec fn le_value(d: Seq<int>, base: int) -> int
    decreases d.len(),
{
    if d.len() == 0 { 0 } else { d[0] + base * le_value(d.drop_first(), base) }
}

/// Bytes as integers.
pub open spec fn byte_ints(s: Seq<u8>) -> Seq<int> {
    s.map_values(|x: u8| x as int)
}

/// Every element lies in [0, base).
pub open spec fn digits_below(d: Seq<int>, base: int) -> bool {
    forall|k: int| 0 <= k < d.len() ==> 0 <= #[trigger] d[k] < base
}

/// `bytes` holds the values `vals` as a little-endian bit string of `width`-bit fields
/// (`base` = 2^width): the bytes read as an integer equal the fields read as an integer.
pub open spec fn bit_packed(bytes: Seq<u8>, vals: Seq<int>, base: int) -> bool {
    &&& digits_below(vals, base)
    &&& le_value(byte_ints(bytes), 256) == le_value(vals, base)
}

/// The value of a concatenation.
pub proof fn lemma_le_value_concat(a: Seq<int>, b: Seq<int>, base: int)
    ensures
        le_value(a + b, base) == le_value(a, base) + pow(base, a.len()) * le_value(b, base),
    decreases a.len(),
{
    if a.len() == 0 {
        assert(a + b =~= b);
        lemma_pow0(base);
    } else {
        let a1 = a.drop_first();
        assert((a + b).drop_first() =~= a1 + b);
        lemma_le_value_concat(a1, b, base);
        lemma_pow_adds(base, 1, a1.len());
        lemma_pow1(base);
        let x = le_value(a1, base);
        let y = le_value(b, base);
        let p = pow(base, a1.len());
        assert(base * (x + p * y) == base * x + (base * p) * y) by (nonlinear_arith);
    }
}

/// Values of digits below the base are non-negative and below base^len.
pub proof fn lemma_le_value_bounds(d: Seq<int>, base: int)
    requires
        base >= 1,
        digits_below(d, base),
    ensures
        0 <= le_value(d, base) < pow(base, d.len()),
    decreases d.len(),
{
    if d.len() == 0 {
        lemma_pow0(base);
    } else {
        let d1 = d.drop_first();
        assert(digits_below(d1, base)) by {
            assert forall|k: int| 0 <= k < d1.len() implies 0 <= #[trigger] d1[k] < base by {
                assert(d1[k] == d[k + 1]);
            }
        }
        lemma_le_value_bounds(d1, base);
        lemma_pow_adds(base, 1, d1.len());
        lemma_pow1(base);
        let x = le_value(d1, base);
        let p = pow(base, d1.len());
        assert(0 <= d[0] < base);
        assert(d[0] + base * x < base * p) by (nonlinear_arith)
            requires 0 <= d[0] < base, 0 <= x < p;
        assert(0 <= base * x) by (nonlinear_arith) requires base >= 1, x >= 0;
    }
}

/// Digits below the base are determined by their value and their number.
pub proof fn lemma_le_value_unique(a: Seq<int>, b: Seq<int>, base: int)
    requires
        base >= 1,
        a.len() == b.len(),
        digits_below(a, base),
        digits_below(b, base),
        le_value(a, base) == le_value(b, base),
    ensures
        a == b,
    decreases a.len(),
{
    if a.len() > 0 {
        let a1 = a.drop_first();
        let b1 = b.drop_first();
        assert(digits_below(a1, base)) by {
            assert forall|k: int| 0 <= k < a1.len() implies 0 <= #[trigger] a1[k] < base by {
                assert(a1[k] == a[k + 1]);
            }
        }
        assert(digits_below(b1, base)) by {
            assert forall|k: int| 0 <= k < b1.len() implies 0 <= #[trigger] b1[k] < base by {
                assert(b1[k] == b[k + 1]);
            }
        }
        lemma_le_value_bounds(a1, base);
        lemma_le_value_bounds(b1, base);
        let x = le_value(a1, base);
        let y = le_value(b1, base);
        assert(0 <= a[0] < base && 0 <= b[0] < base);
        assert(a[0] + base * x == b[0] + base * y);
        assert(base * x == x * base && base * y == y * base) by (nonlinear_arith);
        lemma_fundamental_div_mod_converse(a[0] + base * x, base, x, a[0]);
        lemma_fundamental_div_mod_converse(b[0] + base * y, base, y, b[0]);
        lemma_le_value_unique(a1, b1, base);
        assert(a =~= b) by {
            assert forall|k: int| 0 <= k < a.len() implies a[k] == b[k] by {
                if k > 0 {
                    assert(a[k] == a1[k - 1]);
                    assert(b[k] == b1[k - 1]);
                }
            }
        }
    }
}

/// One step of unfolding the value of a suffix.
pub proof fn lemma_le_value_step(d: Seq<int>, k: int, base: int)
    requires
        0 <= k < d.len(),
    ensures
        le_value(d.subrange(k, d.len() as int), base) == d[k] + base * le_value(d.subrange(k + 1, d.len() as int), base),
{
    assert(d.subrange(k, d.len() as int).drop_first() =~= d.subrange(k + 1, d.len() as int));
}

/// The value of the empty suffix.
pub proof fn lemma_le_value_end(d: Seq<int>, base: int)
    ensures
        le_value(d.subrange(d.len() as int, d.len() as int), base) == 0,
{
    assert(d.subrange(d.len() as int, d.len() as int) =~= Seq::<int>::empty());
}

/// Extending matching prefixes by one matching group keeps them matching.
pub proof fn lemma_le_value_prefix_step(x: Seq<int>, bx: int, nb: int, y: Seq<int>, by: int, nv: int, i: int)
    requires
        nb >= 1,
        nv >= 1,
        i >= 0,
        x.len() >= nb * i + nb,
        y.len() >= nv * i + nv,
        pow(bx, nb as nat) == pow(by, nv as nat),
        le_value(x.subrange(0, nb * i), bx) == le_value(y.subrange(0, nv * i), by),
        le_value(x.subrange(nb * i, nb * i + nb), bx) == le_value(y.subrange(nv * i, nv * i + nv), by),
    ensures
        le_value(x.subrange(0, nb * (i + 1)), bx) == le_value(y.subrange(0, nv * (i + 1)), by),
{
    assert(nb * (i + 1) == nb * i + nb && nv * (i + 1) == nv * i + nv) by (nonlinear_arith);
    assert(nb * i >= 0 && nv * i >= 0) by (nonlinear_arith) requires nb >= 1, nv >= 1, i >= 0;
    let x0 = x.subrange(0, nb * i);
    let x1 = x.subrange(nb * i, nb * i + nb);
    let y0 = y.subrange(0, nv * i);
    let y1 = y.subrange(nv * i, nv * i + nv);
    assert(x.subrange(0, nb * (i + 1)) =~= x0 + x1);
    assert(y.subrange(0, nv * (i + 1)) =~= y0 + y1);
    lemma_le_value_concat(x0, x1, bx);
    lemma_le_value_concat(y0, y1, by);
    lemma_pow_multiplies(bx, nb as nat, i as nat);
    lemma_pow_multiplies(by, nv as nat, i as nat);
    assert(x0.len() == (nb * i) as nat && y0.len() == (nv * i) as nat);
}

/// The radix pairs used by the packings: 256^13 = 8192^8, 256^3 = 8^8, 256^5 = 1024^4.
pub proof fn lemma_radix_pairs()
    ensures
        pow(256, 13) == pow(8192, 8),
        pow(256, 3) == pow(8, 8),
        pow(256, 5) == pow(1024, 4),
{
    reveal_with_fuel(pow, 14);
    assert(pow(256, 13) == 0x1_0000_0000_0000_0000_0000_0000_00);
    assert(pow(8192, 8) == 0x1_0000_0000_0000_0000_0000_0000_00);
}

/// The value of 3 digits, written out.
pub proof fn lemma_le_value_3(d: Seq<int>, base: int)
    requires
        d.len() == 3,
    ensures
        le_value(d, base) == d[0] + base * (d[1] + base * (d[2])),
{
    assert(d.subrange(0, 3) =~= d);
    lemma_le_value_step(d, 0, base);
    lemma_le_value_step(d, 1, base);
    lemma_le_value_step(d, 2, base);
    lemma_le_value_end(d, base);
}

/// The value of 4 digits, written out.
pub proof fn lemma_le_value_4(d: Seq<int>, base: int)
    requires
        d.len() == 4,
    ensures
        le_value(d, base) == d[0] + base * (d[1] + base * (d[2] + base * (d[3]))),
{
    assert(d.subrange(0, 4) =~= d);
    lemma_le_value_step(d, 0, base);
    lemma_le_value_step(d, 1, base);
    lemma_le_value_step(d, 2, base);
    lemma_le_value_step(d, 3, base);
    lemma_le_value_end(d, base);
}

/// The value of 5 digits, written out.
pub proof fn lemma_le_value_5(d: Seq<int>, base: int)
    requires
        d.len() == 5,
    ensures
        le_value(d, base) == d[0] + base * (d[1] + base * (d[2] + base * (d[3] + base * (d[4])))),
{
    assert(d.subrange(0, 5) =~= d);
    lemma_le_value_step(d, 0, base);
    lemma_le_value_step(d, 1, base);
    lemma_le_value_step(d, 2, base);
    lemma_le_value_step(d, 3, base);
    lemma_le_value_step(d, 4, base);
    lemma_le_value_end(d, base);
}

/// The value of 8 digits, written out.
pub proof fn lemma_le_value_8(d: Seq<int>, base: int)
    requires
        d.len() == 8,
    ensures
        le_value(d, base) == d[0] + base * (d[1] + base * (d[2] + base * (d[3] + base * (d[4] + base * (d[5] + base * (d[6] + base * (d[7]))))))),
{
    assert(d.subrange(0, 8) =~= d);
    lemma_le_value_step(d, 0, base);
    lemma_le_value_step(d, 1, base);
    lemma_le_value_step(d, 2, base);
    lemma_le_value_step(d, 3, base);
    lemma_le_value_step(d, 4, base);
    lemma_le_value_step(d, 5, base);
    lemma_le_value_step(d, 6, base);
    lemma_le_value_step(d, 7, base);
    lemma_le_value_end(d, base);
}

/// The value of 13 digits, written out.
pub proof fn lemma_le_value_13(d: Seq<int>, base: int)
    requires
        d.len() == 13,
    ensures
        le_value(d, base) == d[0] + base * (d[1] + base * (d[2] + base * (d[3] + base * (d[4] + base * (d[5] + base * (d[6] + base * (d[7] + base * (d[8] + base * (d[9] + base * (d[10] + base * (d[11] + base * (d[12])))))))))))),
{
    assert(d.subrange(0, 13) =~= d);
    lemma_le_value_step(d, 0, base);
    lemma_le_value_step(d, 1, base);
    lemma_le_value_step(d, 2, base);
    lemma_le_value_step(d, 3, base);
    lemma_le_value_step(d, 4, base);
    lemma_le_value_step(d, 5, base);
    lemma_le_value_step(d, 6, base);
    lemma_le_value_step(d, 7, base);
    lemma_le_value_step(d, 8, base);
    lemma_le_value_step(d, 9, base);
    lemma_le_value_step(d, 10, base);
    lemma_le_value_step(d, 11, base);
    lemma_le_value_step(d, 12, base);
    lemma_le_value_end(d, base);
}

/// Field k of width log2(base) of a byte string read as a little-endian integer.
pub open spec fn field(bytes: Seq<u8>, k: int, base: int) -> int {
    (le_value(byte_ints(bytes), 256) / pow(base, k as nat)) % base
}

/// Digits below the base are recovered from their value by division and remainder.
pub proof fn lemma_le_value_digit(d: Seq<int>, base: int, k: int)
    requires
        base >= 1,
        digits_below(d, base),
        0 <= k < d.len(),
    ensures
        d[k] == (le_value(d, base) / pow(base, k as nat)) % base,
    decreases k,
{
    let d1 = d.drop_first();
    assert(digits_below(d1, base)) by {
        assert forall|j: int| 0 <= j < d1.len() implies 0 <= #[trigger] d1[j] < base by {
            assert(d1[j] == d[j + 1]);
        }
    }
    lemma_le_value_bounds(d1, base);
    let x = le_value(d1, base);
    assert(le_value(d, base) == d[0] + base * x);
    if k == 0 {
        lemma_pow0(base);
        assert(base * x == x * base) by (nonlinear_arith);
        lemma_fundamental_div_mod_converse(d[0] + base * x, base, x, d[0]);
    } else {
        lemma_le_value_digit(d1, base, k - 1);
        assert(d[k] == d1[k - 1]);
        assert(base * x == x * base) by (nonlinear_arith);
        lemma_fundamental_div_mod_converse(d[0] + base * x, base, x, d[0]);
        assert((d[0] + base * x) / base == x);
        lemma_pow_positive(base, (k - 1) as nat);
        lemma_div_denominator(d[0] + base * x, base, pow(base, (k - 1) as nat));
        lemma_pow_adds(base, 1, (k - 1) as nat);
        lemma_pow1(base);
        assert(pow(base, k as nat) == base * pow(base, (k - 1) as nat));
    }
}

/// The fields of a packed byte string are the packed values.
pub proof fn lemma_bit_packed_fields(bytes: Seq<u8>, vals: Seq<int>, base: int)
    requires
        base >= 1,
        bit_packed(bytes, vals, base),
    ensures
        forall|k: int| 0 <= k < vals.len() ==> #[trigger] vals[k] == field(bytes, k, base),
{
    assert forall|k: int| 0 <= k < vals.len() implies #[trigger] vals[k] == field(bytes, k, base) by {
        lemma_le_value_digit(vals, base, k);
    }
}

/// The n digits of x in the given base, least significant first.
pub open spec fn digits_of(x: int, base: int, n: nat) -> Seq<int> {
    Seq::new(n, |k: int| (x / pow(base, k as nat)) % base)
}

/// A value below base^n is the value of its n digits.
pub proof fn lemma_le_value_digits_of(x: int, base: int, n: nat)
    requires
        base >= 2,
        0 <= x < pow(base, n),
    ensures
        digits_below(digits_of(x, base, n), base),
        le_value(digits_of(x, base, n), base) == x,
    decreases n,
{
    let d = digits_of(x, base, n);
    if n == 0 {
        lemma_pow0(base);
    } else {
        let m = (n - 1) as nat;
        let y = x / base;
        lemma_fundamental_div_mod(x, base);
        lemma_pow_adds(base, 1, m);
        lemma_pow1(base);
        let pm = pow(base, m);
        assert(pow(base, n) == base * pm);
        assert(y < pm) by (nonlinear_arith)
            requires x == base * y + x % base, 0 <= x % base, x < base * pm, base > 0;
        assert(y >= 0) by (nonlinear_arith)
            requires x == base * y + x % base, x % base < base, x >= 0, base > 0;
        lemma_le_value_digits_of(y, base, m);
        let e = digits_of(y, base, m);
        assert(d.drop_first() =~= e) by {
            assert forall|k: int| 0 <= k < m implies d.drop_first()[k] == e[k] by {
                lemma_pow_positive(base, k as nat);
                lemma_div_denominator(x, base, pow(base, k as nat));
                lemma_pow_adds(base, 1, k as nat);
                assert(pow(base, (k + 1) as nat) == base * pow(base, k as nat));
                assert(d[k + 1] == (x / pow(base, (k + 1) as nat)) % base);
            }
        }
        lemma_pow0(base);
        assert(d[0] == x % base);
        assert forall|k: int| 0 <= k < d.len() implies 0 <= #[trigger] d[k] < base by {
            lemma_mod_bound(x / pow(base, k as nat), base);
        }
    }
}

/// Bytes are digits below 256.
pub proof fn lemma_byte_ints_below(bytes: Seq<u8>)
    ensures
        digits_below(byte_ints(bytes), 256),
        byte_ints(bytes).len() == bytes.len(),
{
    assert forall|k: int| 0 <= k < byte_ints(bytes).len() implies 0 <= #[trigger] byte_ints(bytes)[k] < 256 by {
        assert(byte_ints(bytes)[k] == bytes[k] as int);
    }
}

/// Every byte string of `nbytes` bytes holds its own fields, when nbytes bytes are n fields.
pub proof fn lemma_bit_packed_own_fields(bytes: Seq<u8>, base: int, n: nat)
    requires
        base >= 2,
        pow(256, bytes.len()) == pow(base, n),
    ensures
        bit_packed(bytes, Seq::new(n, |k: int| field(bytes, k, base)), base),
{
    let x = le_value(byte_ints(bytes), 256);
    lemma_byte_ints_below(bytes);
    lemma_le_value_bounds(byte_ints(bytes), 256);
    lemma_le_value_digits_of(x, base, n);
    assert(Seq::new(n, |k: int| field(bytes, k, base)) =~= digits_of(x, base, n));
}

/// Two byte strings of one length that hold the same values are equal.
pub proof fn lemma_bit_packed_unique(a: Seq<u8>, b: Seq<u8>, vals: Seq<int>, base: int)
    requires
        a.len() == b.len(),
        bit_packed(a, vals, base),
        bit_packed(b, vals, base),
    ensures
        a == b,
{
    lemma_byte_ints_below(a);
    lemma_byte_ints_below(b);
    lemma_le_value_unique(byte_ints(a), byte_ints(b), 256);
    assert forall|k: int| 0 <= k < a.len() implies a[k] == b[k] by {
        assert(byte_ints(a)[k] == byte_ints(b)[k]);
    }
    assert(a =~= b);
}

} // verus!
