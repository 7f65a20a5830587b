//! Multiplication in Z_q[X]/(X^256 + 1) and how the NTT turns it into a
//! coefficient-wise product.
use vstd::prelude::*;
use vstd::arithmetic::div_mod::*;
use vstd::arithmetic::power::*;
use crate::ntt::{canon, cong, intt_spec, layer_pow, lemma_intt_cong, lemma_intt_ntt, lemma_ntt_spec_eval,
    lemma_zeta_square, ntt_spec, poly_eval, root, wsum};
use crate::params::Q;

verus! {

/// The coefficient of X^j in b, for -256 <= j < 256, when X^256 is read as -1:
/// b[j] for j >= 0 and -b[j + 256] for j < 0.
pub open spec fn nega_coef(b: Seq<int>, j: int) -> int {
    if j >= 0 { b[j] } else { -b[j + 256] }
}

/// sum over i < n of a[i] * nega_coef(b, k - i).
pub open spec fn conv_sum(a: Seq<int>, b: Seq<int>, k: int, n: nat) -> int
    decreases n,
{
    if n == 0 { 0 } else { conv_sum(a, b, k, (n - 1) as nat) + a[n - 1] * nega_coef(b, k - (n - 1)) }
}

/// The product of a and b in Z[X]/(X^256 + 1): coefficient k is
/// sum over i + j = k of a[i] b[j] minus sum over i + j = k + 256 of a[i] b[j].
pub open spec fn nega_mul(a: Seq<int>, b: Seq<int>) -> Seq<int> {
    Seq::new(256, |k: int| conv_sum(a, b, k, 256))
}

/// b multiplied by X, modulo X^256 + 1.
pub open spec fn rot1(s: Seq<int>) -> Seq<int> {
    Seq::new(256, |k: int| if k == 0 { -s[255] } else { s[k - 1] })
}

/// b multiplied by X^i, modulo X^256 + 1.
pub open spec fn rot(b: Seq<int>, i: nat) -> Seq<int>
    decreases i,
{
    if i == 0 { b } else { rot1(rot(b, (i - 1) as nat)) }
}

/// The sum of a pointwise combination is the combination of the sums.
proof fn lemma_wsum_lin(u: Seq<int>, s: Seq<int>, t: Seq<int>, c: int, x: int, n: nat)
    requires
        forall|m: int| 0 <= m < n ==> #[trigger] u[m] == s[m] + c * t[m],
    ensures
        wsum(u, 0, 1, x, n) == wsum(s, 0, 1, x, n) + c * wsum(t, 0, 1, x, n),
    decreases n,
{
    if n > 0 {
        let m = (n - 1) as nat;
        lemma_wsum_lin(u, s, t, c, x, m);
        let p = pow(x, m);
        assert(u[m as int] == s[m as int] + c * t[m as int]);
        assert(u[m as int] * p == s[m as int] * p + c * (t[m as int] * p)) by (nonlinear_arith)
            requires u[m as int] == s[m as int] + c * t[m as int];
        assert(c * wsum(t, 0, 1, x, n) == c * wsum(t, 0, 1, x, m) + c * (t[m as int] * p)) by (nonlinear_arith)
            requires wsum(t, 0, 1, x, n) == wsum(t, 0, 1, x, m) + t[m as int] * p;
    }
}

/// Sums over equal entries are equal.
proof fn lemma_wsum_ext(s: Seq<int>, js: int, t: Seq<int>, jt: int, x: int, n: nat)
    requires
        forall|m: int| 0 <= m < n ==> #[trigger] s[js + m] == t[jt + m],
    ensures
        wsum(s, js, 1, x, n) == wsum(t, jt, 1, x, n),
    decreases n,
{
    if n > 0 {
        let m = (n - 1) as nat;
        lemma_wsum_ext(s, js, t, jt, x, m);
        assert(s[js + m] == t[jt + m]);
    }
}

/// Sums over congruent entries are congruent.
proof fn lemma_wsum_entries_cong(s: Seq<int>, t: Seq<int>, x: int, n: nat)
    requires
        forall|m: int| 0 <= m < n ==> canon(#[trigger] s[m]) == canon(t[m]),
    ensures
        canon(wsum(s, 0, 1, x, n)) == canon(wsum(t, 0, 1, x, n)),
    decreases n,
{
    if n > 0 {
        let m = (n - 1) as nat;
        lemma_wsum_entries_cong(s, t, x, m);
        let p = pow(x, m);
        assert(canon(s[m as int]) == canon(t[m as int]));
        lemma_mul_mod_noop_left(s[m as int], p, Q as int);
        lemma_mul_mod_noop_left(t[m as int], p, Q as int);
        lemma_add_mod_noop(wsum(s, 0, 1, x, m), s[m as int] * p, Q as int);
        lemma_add_mod_noop(wsum(t, 0, 1, x, m), t[m as int] * p, Q as int);
    }
}

/// Splitting off the constant term: t[0] + x * (sum of the rest).
proof fn lemma_wsum_first(t: Seq<int>, x: int, n: nat)
    ensures
        wsum(t, 0, 1, x, n + 1) == t[0] + x * wsum(t, 1, 1, x, n),
    decreases n,
{
    if n == 0 {
        lemma_pow0(x);
        assert(wsum(t, 0, 1, x, 1) == wsum(t, 0, 1, x, 0) + t[0] * pow(x, 0));
    } else {
        let m = (n - 1) as nat;
        lemma_wsum_first(t, x, m);
        lemma_pow_adds(x, 1, m);
        lemma_pow1(x);
        let p = pow(x, m);
        let pn = pow(x, n);
        assert(pn == x * p);
        assert(wsum(t, 0, 1, x, n + 1) == wsum(t, 0, 1, x, n) + t[n as int] * pn);
        assert(wsum(t, 0, 1, x, n) == t[0] + x * wsum(t, 1, 1, x, m));
        assert(wsum(t, 1, 1, x, n) == wsum(t, 1, 1, x, m) + t[1 + m as int] * p);
        assert(t[n as int] == t[1 + m as int]);
        assert(wsum(t, 0, 1, x, n + 1) == t[0] + x * wsum(t, 1, 1, x, n)) by (nonlinear_arith)
            requires
                wsum(t, 0, 1, x, n + 1) == wsum(t, 0, 1, x, n) + t[n as int] * pn,
                wsum(t, 0, 1, x, n) == t[0] + x * wsum(t, 1, 1, x, m),
                t[n as int] == t[1 + m as int],
                pn == x * p,
                wsum(t, 1, 1, x, n) == wsum(t, 1, 1, x, m) + t[1 + m as int] * p;
    }
}

/// At a point x with x^256 = -1 (mod q), multiplying by X modulo X^256 + 1 multiplies
/// the value by x.
proof fn lemma_eval_rot1(s: Seq<int>, x: int)
    requires
        s.len() == 256,
        canon(pow(x, 256)) == Q - 1,
    ensures
        canon(poly_eval(rot1(s), x)) == canon(x * poly_eval(s, x)),
{
    let r = rot1(s);
    lemma_wsum_first(r, x, 255);
    lemma_wsum_ext(r, 1, s, 0, x, 255);
    let e = wsum(s, 0, 1, x, 255);
    let p = pow(x, 255);
    assert(poly_eval(s, x) == e + s[255] * p) by {
        assert(wsum(s, 0, 1, x, 256) == e + s[255] * p);
    }
    lemma_pow_adds(x, 1, 255);
    lemma_pow1(x);
    let x256 = pow(x, 256);
    assert(x256 == x * p);
    assert(poly_eval(r, x) == -s[255] + x * e);
    let k = s[255] * (1 + x256);
    assert(poly_eval(r, x) == x * poly_eval(s, x) - k) by (nonlinear_arith)
        requires
            poly_eval(r, x) == -s[255] + x * e,
            poly_eval(s, x) == e + s[255] * p,
            x256 == x * p,
            k == s[255] * (1 + x256);
    lemma_add_mod_noop(1, x256, Q as int);
    lemma_small_mod(1, Q as nat);
    assert(canon(1 + x256) == 0) by {
        lemma_mod_self_0(Q as int);
    }
    lemma_mul_mod_noop_right(s[255], 1 + x256, Q as int);
    lemma_mod_self_0(Q as int);
    assert(canon(k) == 0);
    lemma_sub_mod_noop(x * poly_eval(s, x), k, Q as int);
    lemma_mod_mod(x * poly_eval(s, x), Q as int, 1);
}

/// rot(b, i) has the coefficients nega_coef(b, k - i).
proof fn lemma_rot_coef(b: Seq<int>, i: nat)
    requires
        b.len() == 256,
        i < 256,
    ensures
        rot(b, i).len() == 256,
        forall|k: int| 0 <= k < 256 ==> #[trigger] rot(b, i)[k] == nega_coef(b, k - i),
    decreases i,
{
    if i > 0 {
        lemma_rot_coef(b, (i - 1) as nat);
    } else {
        assert forall|k: int| 0 <= k < 256 implies #[trigger] rot(b, i)[k] == nega_coef(b, k - i) by {}
    }
}

/// Multiplying by X^i multiplies the value at x by x^i.
proof fn lemma_eval_rot(b: Seq<int>, x: int, i: nat)
    requires
        b.len() == 256,
        i < 256,
        canon(pow(x, 256)) == Q - 1,
    ensures
        canon(poly_eval(rot(b, i), x)) == canon(pow(x, i) * poly_eval(b, x)),
    decreases i,
{
    if i == 0 {
        lemma_pow0(x);
    } else {
        let j = (i - 1) as nat;
        lemma_eval_rot(b, x, j);
        lemma_rot_coef(b, j);
        lemma_eval_rot1(rot(b, j), x);
        let eb = poly_eval(b, x);
        let ej = poly_eval(rot(b, j), x);
        lemma_mul_mod_noop_right(x, ej, Q as int);
        lemma_mul_mod_noop_right(x, pow(x, j) * eb, Q as int);
        lemma_pow_adds(x, 1, j);
        lemma_pow1(x);
        assert(x * (pow(x, j) * eb) == pow(x, i) * eb) by (nonlinear_arith)
            requires pow(x, i) == x * pow(x, j);
    }
}

/// The partial products: the polynomial with coefficients conv_sum(a, b, k, n).
pub open spec fn conv_partial(a: Seq<int>, b: Seq<int>, n: nat) -> Seq<int> {
    Seq::new(256, |k: int| conv_sum(a, b, k, n))
}

/// At a root of X^256 + 1, the partial product takes the value a_n(x) * b(x), where a_n is
/// a cut after n coefficients.
proof fn lemma_eval_conv_partial(a: Seq<int>, b: Seq<int>, x: int, n: nat)
    requires
        a.len() == 256,
        b.len() == 256,
        n <= 256,
        canon(pow(x, 256)) == Q - 1,
    ensures
        canon(poly_eval(conv_partial(a, b, n), x)) == canon(wsum(a, 0, 1, x, n) * poly_eval(b, x)),
    decreases n,
{
    let eb = poly_eval(b, x);
    if n == 0 {
        assert(poly_eval(conv_partial(a, b, 0), x) == 0) by {
            lemma_wsum_lin(conv_partial(a, b, 0), conv_partial(a, b, 0), conv_partial(a, b, 0), -1, x, 256);
        }
    } else {
        let m = (n - 1) as nat;
        lemma_eval_conv_partial(a, b, x, m);
        lemma_rot_coef(b, m);
        let rb = rot(b, m);
        let prev = conv_partial(a, b, m);
        let cur = conv_partial(a, b, n);
        let am = a[m as int];
        assert forall|k: int| 0 <= k < 256 implies #[trigger] cur[k] == prev[k] + am * rb[k] by {
            assert(conv_sum(a, b, k, n) == conv_sum(a, b, k, m) + a[m as int] * nega_coef(b, k - m));
        }
        lemma_wsum_lin(cur, prev, rb, am, x, 256);
        lemma_eval_rot(b, x, m);
        let er = poly_eval(rb, x);
        let ep = poly_eval(prev, x);
        let pm = pow(x, m);
        let wa = wsum(a, 0, 1, x, m);
        // canon(ep + am * er) == canon(wa * eb + am * pm * eb)
        lemma_add_mod_noop(ep, am * er, Q as int);
        lemma_mul_mod_noop_right(am, er, Q as int);
        lemma_mul_mod_noop_right(am, pm * eb, Q as int);
        lemma_add_mod_noop(wa * eb, am * (pm * eb), Q as int);
        assert(wsum(a, 0, 1, x, n) == wa + a[m as int] * pm);
        assert(wsum(a, 0, 1, x, n) * eb == wa * eb + am * (pm * eb)) by (nonlinear_arith)
            requires wsum(a, 0, 1, x, n) == wa + am * pm;
    }
}

/// pow(x, e) taken modulo q only depends on x modulo q.
proof fn lemma_pow_canon(x: int, e: nat)
    ensures
        canon(pow(x, e)) == canon(pow(canon(x), e)),
{
    lemma_pow_mod_noop(x, e, Q as int);
}

/// Squaring a root of depth d + 1 gives the root of its parent block.
proof fn lemma_root_square(d: int, c: int)
    requires
        0 <= d < 8,
        0 <= c < layer_pow(d + 1),
    ensures
        canon(root(d + 1, c) * root(d + 1, c)) == root(d, c / 2),
{
    assert(layer_pow(d + 1) == 2 * layer_pow(d));
    lemma_zeta_square(d, c / 2);
    let z = crate::ntt::zeta(layer_pow(d) + c / 2);
    assert(d + 1 - 1 == d);
    if c % 2 == 1 {
        assert(root(d + 1, c) == Q - z);
        assert((Q - z) * (Q - z) == z * z + (Q as int) * (Q - 2 * z)) by (nonlinear_arith);
        lemma_mod_multiples_vanish(Q - 2 * z, z * z, Q as int);
    }
}

/// Every root of depth d, raised to the power 2^d, is -1 modulo q.
proof fn lemma_root_pow(d: int, c: int)
    requires
        0 <= d <= 8,
        0 <= c < layer_pow(d),
    ensures
        canon(pow(root(d, c), layer_pow(d) as nat)) == Q - 1,
    decreases d,
{
    if d == 0 {
        lemma_pow1(Q - 1);
        lemma_small_mod((Q - 1) as nat, Q as nat);
    } else {
        let e = d - 1;
        assert(layer_pow(d) == 2 * layer_pow(e));
        assert(0 <= c / 2 < layer_pow(e));
        lemma_root_pow(e, c / 2);
        lemma_root_square(e, c);
        let r = root(d, c);
        let h = layer_pow(e) as nat;
        lemma_pow_multiplies(r, 2, h);
        lemma_square_is_pow2(r);
        assert(pow(r, 2) == r * r) by { lemma_square_is_pow2(r); }
        assert(pow(r, layer_pow(d) as nat) == pow(r * r, h));
        lemma_pow_canon(r * r, h);
        assert(canon(r * r) == root(e, c / 2));
        lemma_pow_canon(root(e, c / 2), h);
        lemma_mod_mod(root(e, c / 2), Q as int, 1);
        assert(canon(root(e, c / 2)) == root(e, c / 2)) by {
            lemma_mod_mod(r * r, Q as int, 1);
        }
    }
}

/// x^2 as the power 2.
proof fn lemma_square_is_pow2(x: int)
    ensures
        pow(x, 2) == x * x,
{
    lemma_pow_adds(x, 1, 1);
    lemma_pow1(x);
}

/// The NTT turns multiplication in Z_q[X]/(X^256 + 1) into the coefficient-wise product:
/// ntt(a * b) == ntt(a) . ntt(b) (mod q), for all polynomials a and b.
pub proof fn lemma_ntt_nega_mul(a: Seq<int>, b: Seq<int>)
    requires
        a.len() == 256,
        b.len() == 256,
    ensures
        ntt_spec(nega_mul(a, b)) == Seq::new(256, |c: int| canon(ntt_spec(a)[c] * ntt_spec(b)[c])),
{
    let y = Seq::new(256, |c: int| canon(ntt_spec(a)[c] * ntt_spec(b)[c]));
    assert forall|c: int| 0 <= c < 256 implies #[trigger] ntt_spec(nega_mul(a, b))[c] == y[c] by {
        let r = root(8, c);
        lemma_root_pow(8, c);
        assert(layer_pow(8) == 256);
        assert(nega_mul(a, b) == conv_partial(a, b, 256));
        lemma_eval_conv_partial(a, b, r, 256);
        lemma_ntt_spec_eval(nega_mul(a, b), c);
        lemma_ntt_spec_eval(a, c);
        lemma_ntt_spec_eval(b, c);
        let ea = poly_eval(a, r);
        let eb = poly_eval(b, r);
        lemma_mul_mod_noop(ea, eb, Q as int);
    }
    assert(ntt_spec(nega_mul(a, b)) =~= y);
}

/// Multiplying in the NTT domain multiplies the polynomials: for a and b with
/// coefficients in [0, q), intt(ntt(a) . ntt(b)) == a * b in Z_q[X]/(X^256 + 1).
pub proof fn lemma_intt_ntt_multiply(a: Seq<int>, b: Seq<int>)
    requires
        a.len() == 256,
        b.len() == 256,
        forall|p: int| 0 <= p < 256 ==> 0 <= #[trigger] a[p] < Q,
        forall|p: int| 0 <= p < 256 ==> 0 <= #[trigger] b[p] < Q,
    ensures
        intt_spec(Seq::new(256, |c: int| canon(ntt_spec(a)[c] * ntt_spec(b)[c])))
            == Seq::new(256, |k: int| canon(nega_mul(a, b)[k])),
{
    let prod = nega_mul(a, b);
    let w = Seq::new(256, |k: int| canon(prod[k]));
    let y = Seq::new(256, |c: int| canon(ntt_spec(a)[c] * ntt_spec(b)[c]));
    lemma_ntt_nega_mul(a, b);
    assert forall|p: int| 0 <= p < 256 implies 0 <= #[trigger] w[p] < Q by {}
    lemma_intt_ntt(w);
    assert forall|c: int| 0 <= c < 256 implies #[trigger] ntt_spec(w)[c] == y[c] by {
        let r = root(8, c);
        lemma_ntt_spec_eval(w, c);
        lemma_ntt_spec_eval(prod, c);
        assert forall|m: int| 0 <= m < 256 implies canon(#[trigger] w[m]) == canon(prod[m]) by {
            lemma_mod_mod(prod[m], Q as int, 1);
        }
        lemma_wsum_entries_cong(w, prod, r, 256);
    }
    assert(ntt_spec(w) =~= y);
}

} // verus!
