use crate::error::FriError;
use crate::finite_field::{lemma_product_fits, modulo_i128, reduce, Field, FieldElement};
use vstd::arithmetic::div_mod::*;
use vstd::arithmetic::power::*;
use vstd::prelude::*;

verus! {

/// A polynomial over a prime field, by its coefficients in ascending order of
/// degree.
#[derive(Clone, Debug)]
pub struct Polynomial {
    pub coeffs: Vec<FieldElement>,
}

/// Every element is canonical in its own field.
pub open spec fn all_wf(c: Seq<FieldElement>) -> bool {
    forall|i: int| 0 <= i < c.len() ==> #[trigger] c[i].wf()
}

/// The highest index of a non-zero coefficient, or `-1` when there is none.
pub open spec fn degree_of(c: Seq<FieldElement>) -> int
    decreases c.len(),
{
    if c.len() == 0 {
        -1
    } else if c.last().num != 0 {
        c.len() - 1
    } else {
        degree_of(c.drop_last())
    }
}

/// Every element belongs to `f`.
pub open spec fn in_field(c: Seq<FieldElement>, f: Field) -> bool {
    forall|i: int| 0 <= i < c.len() ==> #[trigger] c[i].field == f
}

/// `sum c[i] * x^i` over the integers.
pub open spec fn eval_sum(c: Seq<FieldElement>, x: int) -> int
    decreases c.len(),
{
    if c.len() == 0 {
        0
    } else {
        eval_sum(c.drop_last(), x) + c.last().num * pow(x, (c.len() - 1) as nat)
    }
}

/// The value of the polynomial with coefficients `c` at `x`, in `x`'s field.
pub open spec fn eval_at(c: Seq<FieldElement>, x: FieldElement) -> FieldElement {
    reduce(eval_sum(c, x.num as int), x.field)
}

/// Coefficient `i` of `c` folded with `beta`: `c[2i] + beta * c[2i + 1]`,
/// with a missing odd coefficient read as zero.
pub open spec fn fold_coeff(c: Seq<FieldElement>, beta: FieldElement, i: int) -> FieldElement {
    let odd = if 2 * i + 1 < c.len() { beta.num * c[2 * i + 1].num } else { 0 };
    reduce(c[2 * i].num + odd, beta.field)
}

/// The coefficients of `fold_polynomial(c, beta)`.
pub open spec fn fold_coeffs(c: Seq<FieldElement>, beta: FieldElement) -> Seq<FieldElement> {
    Seq::new(((c.len() + 1) / 2) as nat, |i: int| fold_coeff(c, beta, i))
}

/// Whether every element of `c` belongs to `f`.
pub fn all_in_field(c: &Vec<FieldElement>, f: Field) -> (b: bool)
    ensures
        b == in_field(c@, f),
{
    let mut i: usize = 0;
    while i < c.len()
        invariant
            i <= c@.len(),
            in_field(c@.subrange(0, i as int), f),
        decreases c@.len() - i,
    {
        if c[i].field != f {
            return false;
        }
        i = i + 1;
    }
    proof {
        assert(c@.subrange(0, c@.len() as int) =~= c@);
    }
    true
}

impl Polynomial {
    pub fn new(coeffs: Vec<FieldElement>) -> (r: Self)
        ensures
            r.coeffs@ == coeffs@,
    {
        Self { coeffs }
    }

    /// The highest index of a non-zero coefficient, or `-1` for the zero
    /// polynomial.
    pub fn degree(&self) -> (r: i128)
        ensures
            r == degree_of(self.coeffs@),
    {
        let mut n: usize = self.coeffs.len();
        proof {
            assert(self.coeffs@.subrange(0, n as int) =~= self.coeffs@);
        }
        while n > 0
            invariant
                n <= self.coeffs@.len(),
                degree_of(self.coeffs@) == degree_of(self.coeffs@.subrange(0, n as int)),
            decreases n,
        {
            let ghost pre = self.coeffs@.subrange(0, n as int);
            proof {
                assert(pre.drop_last() =~= self.coeffs@.subrange(0, n - 1));
            }
            if self.coeffs[n - 1].num != 0 {
                return (n - 1) as i128;
            }
            n = n - 1;
        }
        -1
    }

    /// Whether every coefficient is canonical in its own field.
    pub open spec fn wf(self) -> bool {
        all_wf(self.coeffs@)
    }

    /// The value at `x`, accumulating `c[i] * x^i` in ascending order. Fails
    /// when a coefficient lies in another field than `x`.
    pub fn evaluate(&self, x: FieldElement) -> (r: Result<FieldElement, FriError>)
        requires
            self.wf(),
            x.wf(),
        ensures
            r == if in_field(self.coeffs@, x.field) {
                Ok(eval_at(self.coeffs@, x))
            } else {
                Err(FriError::FieldMismatch)
            },
            r matches Ok(v) ==> v.wf(),
    {
        if !all_in_field(&self.coeffs, x.field) {
            return Err(FriError::FieldMismatch);
        }
        let p = x.field.prime;
        let ghost c = self.coeffs@;
        let mut xi: i128 = modulo_i128(1, p);
        let mut value: i128 = 0;
        let mut i: usize = 0;
        proof {
            assert(c.subrange(0, 0) =~= Seq::<FieldElement>::empty());
            lemma_small_mod(1, p as nat);
            lemma_small_mod(0, p as nat);
            lemma_pow0(x.num as int);
        }
        while i < self.coeffs.len()
            invariant
                x.wf(),
                p == x.field.prime,
                c == self.coeffs@,
                all_wf(c),
                in_field(c, x.field),
                i <= c.len(),
                0 <= value < p,
                0 <= xi < p,
                value as int == eval_sum(c.subrange(0, i as int), x.num as int) % (p as int),
                xi as int == pow(x.num as int, i as nat) % (p as int),
            decreases c.len() - i,
        {
            let ci = self.coeffs[i].num;
            proof {
                let pp = p as int;
                let xv = x.num as int;
                let e = eval_sum(c.subrange(0, i as int), xv);
                let pw = pow(xv, i as nat);
                assert(c[i as int].wf());
                assert(c.subrange(0, i as int + 1).drop_last() =~= c.subrange(0, i as int));
                assert(eval_sum(c.subrange(0, i as int + 1), xv) == e + ci * pw);
                lemma_product_fits(ci as int, xi as int, pp);
                lemma_product_fits(xi as int, xv, pp);
                lemma_mul_mod_noop_right(ci as int, pw, pp);
                lemma_add_mod_noop(e, ci * pw, pp);
                lemma_mod_twice(e, pp);
                lemma_mod_twice(ci * pw, pp);
                lemma_mul_mod_noop_left(pw, xv, pp);
                lemma_pow_adds(xv, i as nat, 1);
                lemma_pow1(xv);
                assert(pow(xv, (i + 1) as nat) == pw * xv);
            }
            let term = modulo_i128(ci * xi, p);
            value = modulo_i128(value + term, p);
            xi = modulo_i128(xi * x.num, p);
            i = i + 1;
        }
        proof {
            assert(c.subrange(0, c.len() as int) =~= c);
        }
        Ok(FieldElement { num: value, field: x.field })
    }

    /// The values at every point of `domain`, in order. Fails when a
    /// coefficient lies in another field than one of the points.
    pub fn evaluate_domain(&self, domain: &Vec<FieldElement>) -> (r: Result<Vec<FieldElement>, FriError>)
        requires
            self.wf(),
            all_wf(domain@),
        ensures
            r is Ok <==> forall|j: int| 0 <= j < domain@.len() ==> in_field(self.coeffs@, #[trigger] domain@[j].field),
            r is Err ==> r == Err::<Vec<FieldElement>, FriError>(FriError::FieldMismatch),
            r matches Ok(v) ==> v@.len() == domain@.len() && all_wf(v@) && forall|j: int|
                0 <= j < domain@.len() ==> #[trigger] v@[j] == eval_at(self.coeffs@, domain@[j]),
    {
        let mut output: Vec<FieldElement> = Vec::new();
        let mut j: usize = 0;
        while j < domain.len()
            invariant
                self.wf(),
                all_wf(domain@),
                j <= domain@.len(),
                output@.len() == j,
                all_wf(output@),
                forall|k: int| 0 <= k < j ==> in_field(self.coeffs@, #[trigger] domain@[k].field),
                forall|k: int| 0 <= k < j ==> #[trigger] output@[k] == eval_at(self.coeffs@, domain@[k]),
            decreases domain@.len() - j,
        {
            assert(domain@[j as int].wf());
            match self.evaluate(domain[j]) {
                Ok(v) => {
                    output.push(v);
                },
                Err(e) => {
                    return Err(e);
                },
            }
            j = j + 1;
        }
        Ok(output)
    }
}

/// Folds `poly` with the challenge `beta`: coefficient `i` of the result is
/// `c[2i] + beta * c[2i + 1]`, so that `f(x) = f_even(x^2) + x * f_odd(x^2)`
/// becomes `f_even(y) + beta * f_odd(y)`. The coefficient count is halved,
/// rounding up. Fails when a coefficient lies in another field than `beta`.
pub fn fold_polynomial(poly: &Polynomial, beta: &FieldElement) -> (r: Result<Polynomial, FriError>)
    requires
        poly.wf(),
        beta.wf(),
    ensures
        r is Ok <==> in_field(poly.coeffs@, beta.field),
        r matches Err(e) ==> e == FriError::FieldMismatch,
        r matches Ok(q) ==> q.coeffs@ == fold_coeffs(poly.coeffs@, *beta) && q.wf() && in_field(
            q.coeffs@,
            beta.field,
        ),
        r matches Ok(q) ==> (poly.coeffs@.len() % 2 == 0 ==> q.coeffs@.len() == poly.coeffs@.len() / 2),
{
    if !all_in_field(&poly.coeffs, beta.field) {
        return Err(FriError::FieldMismatch);
    }
    let ghost c = poly.coeffs@;
    let p = beta.field.prime;
    let n = poly.coeffs.len();
    let half = n - n / 2;
    let mut out: Vec<FieldElement> = Vec::new();
    let mut i: usize = 0;
    while i < half
        invariant
            beta.wf(),
            p == beta.field.prime,
            c == poly.coeffs@,
            n == c.len(),
            half == n - n / 2,
            all_wf(c),
            in_field(c, beta.field),
            i <= half,
            out@.len() == i,
            forall|k: int| 0 <= k < i ==> #[trigger] out@[k] == fold_coeff(c, *beta, k),
        decreases half - i,
    {
        let even = poly.coeffs[2 * i].num;
        proof {
            assert(c[2 * i as int].wf());
        }
        let odd: i128 = if 2 * i + 1 < n {
            let o = poly.coeffs[2 * i + 1].num;
            proof {
                assert(c[2 * i as int + 1].wf());
                lemma_product_fits(beta.num as int, o as int, p as int);
            }
            modulo_i128(beta.num * o, p)
        } else {
            0
        };
        proof {
            let bo = if 2 * i + 1 < n { beta.num * c[2 * i as int + 1].num } else { 0 };
            lemma_add_mod_noop_right(even as int, bo, p as int);
            if 2 * i + 1 >= n {
                lemma_small_mod(0, p as nat);
            }
        }
        out.push(FieldElement { num: modulo_i128(even + odd, p), field: beta.field });
        i = i + 1;
    }
    proof {
        assert(out@ =~= fold_coeffs(c, *beta));
    }
    Ok(Polynomial { coeffs: out })
}

/// Sum of the coefficients at even indices.
pub open spec fn even_sum(c: Seq<FieldElement>) -> int
    decreases c.len(),
{
    if c.len() == 0 {
        0
    } else if (c.len() - 1) % 2 == 0 {
        even_sum(c.drop_last()) + c.last().num
    } else {
        even_sum(c.drop_last())
    }
}

/// Sum of the coefficients at odd indices.
pub open spec fn odd_sum(c: Seq<FieldElement>) -> int
    decreases c.len(),
{
    if c.len() == 0 {
        0
    } else if (c.len() - 1) % 2 == 1 {
        odd_sum(c.drop_last()) + c.last().num
    } else {
        odd_sum(c.drop_last())
    }
}

proof fn lemma_pow_minus_one(k: nat)
    ensures
        pow(-1, k) == if k % 2 == 0 { 1int } else { -1int },
    decreases k,
{
    if k > 0 {
        lemma_pow_minus_one((k - 1) as nat);
        lemma_pow_adds(-1, (k - 1) as nat, 1);
        lemma_pow1(-1);
        assert(pow(-1, k) == pow(-1, (k - 1) as nat) * -1);
    } else {
        lemma_pow0(-1);
    }
}

/// At `1` a polynomial is the sum of its even and odd parts; at `-1`, their
/// difference.
pub proof fn lemma_eval_at_one(c: Seq<FieldElement>)
    ensures
        eval_sum(c, 1) == even_sum(c) + odd_sum(c),
        eval_sum(c, -1) == even_sum(c) - odd_sum(c),
    decreases c.len(),
{
    if c.len() > 0 {
        let k = (c.len() - 1) as nat;
        lemma_eval_at_one(c.drop_last());
        lemma1_pow(k);
        lemma_pow_minus_one(k);
        if k % 2 == 0 {
            assert(c.last().num * pow(-1, k) == c.last().num);
        } else {
            assert(c.last().num * pow(-1, k) == -c.last().num);
        }
    }
}

/// Points congruent modulo `p` give congruent values.
pub proof fn lemma_eval_congruent(c: Seq<FieldElement>, x: int, y: int, p: int)
    requires
        p > 0,
        x % p == y % p,
    ensures
        eval_sum(c, x) % p == eval_sum(c, y) % p,
    decreases c.len(),
{
    if c.len() > 0 {
        let k = (c.len() - 1) as nat;
        let d = c.drop_last();
        let v = c.last().num as int;
        lemma_eval_congruent(d, x, y, p);
        lemma_pow_mod_noop(x, k, p);
        lemma_pow_mod_noop(y, k, p);
        lemma_mul_mod_noop_right(v, pow(x, k), p);
        lemma_mul_mod_noop_right(v, pow(y, k), p);
        lemma_add_mod_noop(eval_sum(d, x), v * pow(x, k), p);
        lemma_add_mod_noop(eval_sum(d, y), v * pow(y, k), p);
    }
}

/// At `1`, the folded polynomial is the even part plus `beta` times the odd
/// part, modulo the field's prime.
pub proof fn lemma_fold_at_one(c: Seq<FieldElement>, beta: FieldElement)
    requires
        beta.wf(),
    ensures
        eval_sum(fold_coeffs(c, beta), 1) % (beta.field.prime as int) == (even_sum(c) + beta.num * odd_sum(
            c,
        )) % (beta.field.prime as int),
    decreases c.len(),
{
    let p = beta.field.prime as int;
    let b = beta.num as int;
    let n = c.len();
    let f = fold_coeffs(c, beta);
    if n == 0 {
        lemma_small_mod(0, p as nat);
    } else {
        let m = ((n + 1) / 2) as int;
        let pre = c.subrange(0, 2 * m - 2);
        lemma_fold_at_one(pre, beta);
        assert(f.drop_last() =~= fold_coeffs(pre, beta));
        lemma1_pow((m - 1) as nat);
        let last = f.last().num as int;
        let odd_tail = if 2 * m - 1 < n { c[2 * m - 1].num as int } else { 0 };
        assert(f.last() == fold_coeff(c, beta, m - 1));
        assert(2 * (m - 1) == 2 * m - 2 && 2 * (m - 1) + 1 == 2 * m - 1);
        if 2 * m - 1 >= n {
            assert(odd_tail == 0);
            assert(b * odd_tail == 0) by (nonlinear_arith)
                requires
                    odd_tail == 0,
            ;
        }
        assert(last == (c[2 * m - 2].num + b * odd_tail) % p);
        // the even and odd sums of `c` split at the last pair
        if n == 2 * m {
            let dl = c.drop_last();
            assert(dl.drop_last() =~= pre);
            assert((n - 1) % 2 == 1);
            assert((dl.len() - 1) % 2 == 0);
            assert(even_sum(c) == even_sum(dl));
            assert(even_sum(dl) == even_sum(pre) + c[2 * m - 2].num);
            assert(odd_sum(c) == odd_sum(dl) + c[2 * m - 1].num);
            assert(odd_sum(dl) == odd_sum(pre));
        } else {
            assert((n - 1) % 2 == 0);
            assert(c.drop_last() =~= pre);
            assert(even_sum(c) == even_sum(pre) + c[2 * m - 2].num);
            assert(odd_sum(c) == odd_sum(pre));
        }
        let e0 = even_sum(pre);
        let o0 = odd_sum(pre);
        let t = eval_sum(fold_coeffs(pre, beta), 1);
        assert(eval_sum(f, 1) == t + last);
        lemma_add_mod_noop(t, last, p);
        lemma_add_mod_noop(e0 + b * o0, c[2 * m - 2].num + b * odd_tail, p);
        lemma_mod_twice(c[2 * m - 2].num + b * odd_tail, p);
        assert(e0 + b * o0 + (c[2 * m - 2].num + b * odd_tail) == (e0 + c[2 * m - 2].num) + b * (o0
            + odd_tail)) by (nonlinear_arith);
    }
}

} // verus!
