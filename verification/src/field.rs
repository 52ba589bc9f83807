//! Polynomials over the scalar field of secp256k1: what makes a shared secret
//! unique.
use vstd::arithmetic::div_mod::*;
use vstd::arithmetic::mul::*;
use vstd::prelude::*;

verus! {

/// The order of the secp256k1 group: scalars are numbers below it.
pub open spec fn order() -> int {
    0xFFFFFFFF_FFFFFFFF_FFFFFFFF_FFFFFFFE_BAAEDCE6_AF48A03B_BFD25E8C_D0364141int
}

/// The value at `x` of the polynomial whose coefficients are `coeffs`, lowest
/// first.
pub open spec fn eval(coeffs: Seq<int>, x: int) -> int
    decreases coeffs.len(),
{
    if coeffs.len() == 0 {
        0
    } else {
        coeffs[0] + x * eval(coeffs.skip(1), x)
    }
}

/// The order of the secp256k1 group is 2^256 -
/// 432420386565659656852420866394968145599.
pub proof fn order_is_that_of_secp256k1()
    ensures
        order()
            == 115792089237316195423570985008687907852837564279074904382605163141518161494337int,
{
}

/// The value of a polynomial: that of a constant is the constant, and a
/// coefficient put in front of a polynomial is added to `x` times its value.
pub proof fn polynomial_value(first: int, rest: Seq<int>, x: int)
    ensures
        eval(Seq::empty(), x) == 0,
        eval(seq![first] + rest, x) == first + x * eval(rest, x),
{
    assert((seq![first] + rest).skip(1) =~= rest);
}

/// No number from 2 up to `k` divides the order.
pub open spec fn no_divisor_up_to(k: int) -> bool
    decreases k,
{
    k < 2 || (order() % k != 0 && no_divisor_up_to(k - 1))
}

proof fn lemma_no_small_divisor()
    ensures
        no_divisor_up_to(255),
{
    let n = order();
    assert(no_divisor_up_to(15)) by {
        reveal_with_fuel(no_divisor_up_to, 18);
        assert(n % 2 != 0 && n % 3 != 0 && n % 4 != 0 && n % 5 != 0);
        assert(n % 6 != 0 && n % 7 != 0 && n % 8 != 0 && n % 9 != 0);
        assert(n % 10 != 0 && n % 11 != 0 && n % 12 != 0 && n % 13 != 0);
        assert(n % 14 != 0 && n % 15 != 0);
    }
    assert(no_divisor_up_to(31)) by {
        reveal_with_fuel(no_divisor_up_to, 18);
        assert(n % 16 != 0 && n % 17 != 0 && n % 18 != 0 && n % 19 != 0);
        assert(n % 20 != 0 && n % 21 != 0 && n % 22 != 0 && n % 23 != 0);
        assert(n % 24 != 0 && n % 25 != 0 && n % 26 != 0 && n % 27 != 0);
        assert(n % 28 != 0 && n % 29 != 0 && n % 30 != 0 && n % 31 != 0);
    }
    assert(no_divisor_up_to(47)) by {
        reveal_with_fuel(no_divisor_up_to, 18);
        assert(n % 32 != 0 && n % 33 != 0 && n % 34 != 0 && n % 35 != 0);
        assert(n % 36 != 0 && n % 37 != 0 && n % 38 != 0 && n % 39 != 0);
        assert(n % 40 != 0 && n % 41 != 0 && n % 42 != 0 && n % 43 != 0);
        assert(n % 44 != 0 && n % 45 != 0 && n % 46 != 0 && n % 47 != 0);
    }
    assert(no_divisor_up_to(63)) by {
        reveal_with_fuel(no_divisor_up_to, 18);
        assert(n % 48 != 0 && n % 49 != 0 && n % 50 != 0 && n % 51 != 0);
        assert(n % 52 != 0 && n % 53 != 0 && n % 54 != 0 && n % 55 != 0);
        assert(n % 56 != 0 && n % 57 != 0 && n % 58 != 0 && n % 59 != 0);
        assert(n % 60 != 0 && n % 61 != 0 && n % 62 != 0 && n % 63 != 0);
    }
    assert(no_divisor_up_to(79)) by {
        reveal_with_fuel(no_divisor_up_to, 18);
        assert(n % 64 != 0 && n % 65 != 0 && n % 66 != 0 && n % 67 != 0);
        assert(n % 68 != 0 && n % 69 != 0 && n % 70 != 0 && n % 71 != 0);
        assert(n % 72 != 0 && n % 73 != 0 && n % 74 != 0 && n % 75 != 0);
        assert(n % 76 != 0 && n % 77 != 0 && n % 78 != 0 && n % 79 != 0);
    }
    assert(no_divisor_up_to(95)) by {
        reveal_with_fuel(no_divisor_up_to, 18);
        assert(n % 80 != 0 && n % 81 != 0 && n % 82 != 0 && n % 83 != 0);
        assert(n % 84 != 0 && n % 85 != 0 && n % 86 != 0 && n % 87 != 0);
        assert(n % 88 != 0 && n % 89 != 0 && n % 90 != 0 && n % 91 != 0);
        assert(n % 92 != 0 && n % 93 != 0 && n % 94 != 0 && n % 95 != 0);
    }
    assert(no_divisor_up_to(111)) by {
        reveal_with_fuel(no_divisor_up_to, 18);
        assert(n % 96 != 0 && n % 97 != 0 && n % 98 != 0 && n % 99 != 0);
        assert(n % 100 != 0 && n % 101 != 0 && n % 102 != 0 && n % 103 != 0);
        assert(n % 104 != 0 && n % 105 != 0 && n % 106 != 0 && n % 107 != 0);
        assert(n % 108 != 0 && n % 109 != 0 && n % 110 != 0 && n % 111 != 0);
    }
    assert(no_divisor_up_to(127)) by {
        reveal_with_fuel(no_divisor_up_to, 18);
        assert(n % 112 != 0 && n % 113 != 0 && n % 114 != 0 && n % 115 != 0);
        assert(n % 116 != 0 && n % 117 != 0 && n % 118 != 0 && n % 119 != 0);
        assert(n % 120 != 0 && n % 121 != 0 && n % 122 != 0 && n % 123 != 0);
        assert(n % 124 != 0 && n % 125 != 0 && n % 126 != 0 && n % 127 != 0);
    }
    assert(no_divisor_up_to(143)) by {
        reveal_with_fuel(no_divisor_up_to, 18);
        assert(n % 128 != 0 && n % 129 != 0 && n % 130 != 0 && n % 131 != 0);
        assert(n % 132 != 0 && n % 133 != 0 && n % 134 != 0 && n % 135 != 0);
        assert(n % 136 != 0 && n % 137 != 0 && n % 138 != 0 && n % 139 != 0);
        assert(n % 140 != 0 && n % 141 != 0 && n % 142 != 0 && n % 143 != 0);
    }
    assert(no_divisor_up_to(159)) by {
        reveal_with_fuel(no_divisor_up_to, 18);
        assert(n % 144 != 0 && n % 145 != 0 && n % 146 != 0 && n % 147 != 0);
        assert(n % 148 != 0 && n % 149 != 0 && n % 150 != 0 && n % 151 != 0);
        assert(n % 152 != 0 && n % 153 != 0 && n % 154 != 0 && n % 155 != 0);
        assert(n % 156 != 0 && n % 157 != 0 && n % 158 != 0 && n % 159 != 0);
    }
    assert(no_divisor_up_to(175)) by {
        reveal_with_fuel(no_divisor_up_to, 18);
        assert(n % 160 != 0 && n % 161 != 0 && n % 162 != 0 && n % 163 != 0);
        assert(n % 164 != 0 && n % 165 != 0 && n % 166 != 0 && n % 167 != 0);
        assert(n % 168 != 0 && n % 169 != 0 && n % 170 != 0 && n % 171 != 0);
        assert(n % 172 != 0 && n % 173 != 0 && n % 174 != 0 && n % 175 != 0);
    }
    assert(no_divisor_up_to(191)) by {
        reveal_with_fuel(no_divisor_up_to, 18);
        assert(n % 176 != 0 && n % 177 != 0 && n % 178 != 0 && n % 179 != 0);
        assert(n % 180 != 0 && n % 181 != 0 && n % 182 != 0 && n % 183 != 0);
        assert(n % 184 != 0 && n % 185 != 0 && n % 186 != 0 && n % 187 != 0);
        assert(n % 188 != 0 && n % 189 != 0 && n % 190 != 0 && n % 191 != 0);
    }
    assert(no_divisor_up_to(207)) by {
        reveal_with_fuel(no_divisor_up_to, 18);
        assert(n % 192 != 0 && n % 193 != 0 && n % 194 != 0 && n % 195 != 0);
        assert(n % 196 != 0 && n % 197 != 0 && n % 198 != 0 && n % 199 != 0);
        assert(n % 200 != 0 && n % 201 != 0 && n % 202 != 0 && n % 203 != 0);
        assert(n % 204 != 0 && n % 205 != 0 && n % 206 != 0 && n % 207 != 0);
    }
    assert(no_divisor_up_to(223)) by {
        reveal_with_fuel(no_divisor_up_to, 18);
        assert(n % 208 != 0 && n % 209 != 0 && n % 210 != 0 && n % 211 != 0);
        assert(n % 212 != 0 && n % 213 != 0 && n % 214 != 0 && n % 215 != 0);
        assert(n % 216 != 0 && n % 217 != 0 && n % 218 != 0 && n % 219 != 0);
        assert(n % 220 != 0 && n % 221 != 0 && n % 222 != 0 && n % 223 != 0);
    }
    assert(no_divisor_up_to(239)) by {
        reveal_with_fuel(no_divisor_up_to, 18);
        assert(n % 224 != 0 && n % 225 != 0 && n % 226 != 0 && n % 227 != 0);
        assert(n % 228 != 0 && n % 229 != 0 && n % 230 != 0 && n % 231 != 0);
        assert(n % 232 != 0 && n % 233 != 0 && n % 234 != 0 && n % 235 != 0);
        assert(n % 236 != 0 && n % 237 != 0 && n % 238 != 0 && n % 239 != 0);
    }
    assert(no_divisor_up_to(255)) by {
        reveal_with_fuel(no_divisor_up_to, 18);
        assert(n % 240 != 0 && n % 241 != 0 && n % 242 != 0 && n % 243 != 0);
        assert(n % 244 != 0 && n % 245 != 0 && n % 246 != 0 && n % 247 != 0);
        assert(n % 248 != 0 && n % 249 != 0 && n % 250 != 0 && n % 251 != 0);
        assert(n % 252 != 0 && n % 253 != 0 && n % 254 != 0 && n % 255 != 0);
    }
}

proof fn lemma_not_a_divisor(k: int, d: int)
    requires
        2 <= d <= k,
        no_divisor_up_to(k),
    ensures
        order() % d != 0,
    decreases k,
{
    if d < k {
        lemma_not_a_divisor(k - 1, d);
    }
}

/// A small factor can be cancelled: it has no divisor in common with the
/// order.
proof fn lemma_cancel_positive(d: int, y: int)
    requires
        1 <= d <= 255,
        (d * y) % order() == 0,
    ensures
        y % order() == 0,
    decreases d,
{
    if d > 1 {
        lemma_no_small_divisor();
        lemma_not_a_divisor(255, d);
        let q = order() / d;
        let r = order() % d;
        lemma_fundamental_div_mod(order(), d);
        lemma_mod_bound(order(), d);
        // r * y == order * y - q * (d * y), and the order divides both terms
        assert(r * y == order() * y - q * (d * y)) by (nonlinear_arith)
            requires
                order() == d * q + r,
        ;
        lemma_mod_multiples_basic(y, order());
        assert(order() * y == y * order()) by (nonlinear_arith);
        lemma_mul_mod_noop_right(q, d * y, order());
        assert(q * 0 == 0);
        lemma_sub_mod_noop(order() * y, q * (d * y), order());
        assert((r * y) % order() == 0) by {
            assert(0int % order() == 0);
        }
        lemma_cancel_positive(r, y);
    } else {
        assert(1 * y == y);
    }
}

/// A nonzero factor of absolute value at most 255 can be cancelled.
proof fn lemma_cancel(d: int, y: int)
    requires
        -255 <= d <= 255,
        d != 0,
        (d * y) % order() == 0,
    ensures
        y % order() == 0,
{
    if d > 0 {
        lemma_cancel_positive(d, y);
    } else {
        assert((-d) * y == 0 - d * y) by (nonlinear_arith);
        lemma_sub_mod_noop(0, d * y, order());
        assert(0int % order() == 0);
        lemma_cancel_positive(-d, y);
    }
}

/// The polynomial divided by `x - r`.
spec fn quotient(coeffs: Seq<int>, r: int) -> Seq<int>
    decreases coeffs.len(),
{
    if coeffs.len() <= 1 {
        Seq::empty()
    } else {
        seq![eval(coeffs.skip(1), r)] + quotient(coeffs.skip(1), r)
    }
}

proof fn lemma_quotient(coeffs: Seq<int>, r: int, x: int)
    requires
        coeffs.len() >= 1,
    ensures
        quotient(coeffs, r).len() == coeffs.len() - 1,
        eval(coeffs, x) == eval(coeffs, r) + (x - r) * eval(quotient(coeffs, r), x),
    decreases coeffs.len(),
{
    let rest = coeffs.skip(1);
    if coeffs.len() == 1 {
        let (a, b, w) = (eval(rest, x), eval(rest, r), eval(quotient(coeffs, r), x));
        assert(rest.len() == 0 && quotient(coeffs, r).len() == 0);
        assert(x * a == r * b + (x - r) * w) by (nonlinear_arith)
            requires
                a == 0,
                b == 0,
                w == 0,
        ;
    } else {
        lemma_quotient(rest, r, x);
        let q = quotient(coeffs, r);
        assert(q.skip(1) =~= quotient(rest, r));
        let (a, b, w) = (eval(rest, x), eval(rest, r), eval(quotient(rest, r), x));
        assert(x * a - r * b == (x - r) * (b + x * w)) by (nonlinear_arith)
            requires
                a == b + (x - r) * w,
        ;
    }
}

/// Numbers of which no two are the same.
pub open spec fn distinct(xs: Seq<int>) -> bool {
    forall|i: int, j: int| 0 <= i < j < xs.len() ==> xs[i] != xs[j]
}

/// A polynomial with as many coefficients as it has distinct roots vanishes
/// everywhere.
proof fn lemma_too_many_roots(coeffs: Seq<int>, xs: Seq<int>, x: int)
    requires
        coeffs.len() == xs.len(),
        distinct(xs),
        forall|i: int| 0 <= i < xs.len() ==> 0 <= #[trigger] xs[i] <= 255,
        forall|i: int| 0 <= i < xs.len() ==> eval(coeffs, #[trigger] xs[i]) % order() == 0,
    ensures
        eval(coeffs, x) % order() == 0,
    decreases coeffs.len(),
{
    if coeffs.len() > 0 {
        let r = xs.last();
        let q = quotient(coeffs, r);
        let ys = xs.drop_last();
        lemma_quotient(coeffs, r, x);
        assert forall|i: int| 0 <= i < ys.len() implies eval(q, #[trigger] ys[i]) % order()
            == 0 by {
            assert(ys[i] == xs[i]);
            lemma_quotient(coeffs, r, xs[i]);
            let product = (xs[i] - r) * eval(q, xs[i]);
            assert(product == eval(coeffs, xs[i]) - eval(coeffs, r));
            assert(eval(coeffs, xs[xs.len() - 1]) % order() == 0);
            lemma_sub_mod_noop(eval(coeffs, xs[i]), eval(coeffs, r), order());
            assert(0int % order() == 0);
            assert(xs[i] != xs[xs.len() - 1]);
            lemma_cancel(xs[i] - r, eval(q, xs[i]));
        }
        lemma_too_many_roots(q, ys, x);
        assert(eval(coeffs, xs[xs.len() - 1]) % order() == 0);
        lemma_mul_mod_noop_right(x - r, eval(q, x), order());
        assert((x - r) * 0 == 0);
        lemma_add_mod_noop(eval(coeffs, r), (x - r) * eval(q, x), order());
        assert(0int % order() == 0);
    } else {
        assert(0int % order() == 0);
    }
}

/// The difference of two polynomials, the first of which may have fewer
/// coefficients.
spec fn difference(a: Seq<int>, b: Seq<int>) -> Seq<int> {
    Seq::new(b.len(), |i: int| (if i < a.len() { a[i] } else { 0 }) - b[i])
}

proof fn lemma_difference(a: Seq<int>, b: Seq<int>, x: int)
    requires
        a.len() <= b.len(),
    ensures
        eval(difference(a, b), x) == eval(a, x) - eval(b, x),
    decreases b.len(),
{
    let d = difference(a, b);
    if b.len() > 0 {
        let rest = if a.len() > 0 {
            a.skip(1)
        } else {
            a
        };
        lemma_difference(rest, b.skip(1), x);
        assert(d.skip(1) =~= difference(rest, b.skip(1)));
        if a.len() > 0 {
            lemma_mul_is_distributive_sub(x, eval(rest, x), eval(b.skip(1), x));
        } else {
            lemma_mul_is_distributive_sub(x, 0, eval(b.skip(1), x));
            assert(x * 0 == 0);
        }
    }
}

/// Two polynomials that agree modulo the order at as many distinct points as
/// the longer has coefficients agree everywhere, modulo the order. So any
/// threshold of shares determines the secret.
pub proof fn lemma_polynomial_unique(a: Seq<int>, b: Seq<int>, xs: Seq<int>, x: int)
    requires
        a.len() <= b.len() == xs.len(),
        distinct(xs),
        forall|i: int| 0 <= i < xs.len() ==> 0 <= #[trigger] xs[i] <= 255,
        forall|i: int|
            0 <= i < xs.len() ==> eval(a, #[trigger] xs[i]) % order() == eval(b, xs[i]) % order(),
    ensures
        eval(a, x) % order() == eval(b, x) % order(),
{
    let d = difference(a, b);
    assert forall|i: int| 0 <= i < xs.len() implies eval(d, #[trigger] xs[i]) % order() == 0 by {
        lemma_difference(a, b, xs[i]);
        lemma_mod_equivalence(eval(a, xs[i]), eval(b, xs[i]), order());
    }
    lemma_too_many_roots(d, xs, x);
    lemma_difference(a, b, x);
    lemma_mod_equivalence(eval(a, x), eval(b, x), order());
}

/// Zero coefficients at the high end change nothing.
pub proof fn lemma_eval_padded(coeffs: Seq<int>, zeros: nat, x: int)
    ensures
        eval(coeffs + Seq::new(zeros, |i: int| 0int), x) == eval(coeffs, x),
    decreases coeffs.len() + zeros,
{
    let padded = coeffs + Seq::new(zeros, |i: int| 0int);
    if coeffs.len() > 0 {
        assert(padded.skip(1) =~= coeffs.skip(1) + Seq::new(zeros, |i: int| 0int));
        lemma_eval_padded(coeffs.skip(1), zeros, x);
    } else if zeros > 0 {
        let fewer = (zeros - 1) as nat;
        assert(padded.skip(1) =~= coeffs + Seq::new(fewer, |i: int| 0int));
        lemma_eval_padded(coeffs, fewer, x);
        assert(x * 0 == 0);
    }
}

/// The value at zero is the lowest coefficient.
pub proof fn lemma_eval_at_zero(coeffs: Seq<int>)
    requires
        coeffs.len() >= 1,
    ensures
        eval(coeffs, 0) == coeffs[0],
{
    assert(0 * eval(coeffs.skip(1), 0) == 0);
}

} // verus!
