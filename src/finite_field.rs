use crate::error::FriError;
use modulo::Mod;
use vstd::arithmetic::div_mod::*;
use vstd::arithmetic::mul::*;
use vstd::arithmetic::power::*;
use vstd::prelude::*;

verus! {

/// Largest modulus a field may have: products of two reduced elements then
/// stay well inside `i128`.
pub const MAX_PRIME: i128 = 0x7fff_ffff_ffff_ffff;

/// The number that `Field::generator` hands out.
pub const GENERATOR: i128 = 28;

/// A prime field, given by its modulus.
#[derive(Debug, Clone, Copy, PartialEq, Eq, Structural)]
pub struct Field {
    pub prime: i128,
}

/// An element of a prime field: a value in `[0, prime)` tagged with its field.
#[derive(Debug, Clone, Copy, PartialEq, Eq, Structural)]
pub struct FieldElement {
    pub num: i128,
    pub field: Field,
}

/// Absolute value.
pub open spec fn abs(x: int) -> int {
    if x < 0 { -x } else { x }
}

/// Greatest common divisor, by Euclid's recurrence.
pub open spec fn gcd(a: nat, b: nat) -> nat
    decreases b,
{
    if b == 0 {
        a
    } else {
        gcd(b, a % b)
    }
}

/// The extended Euclidean algorithm: `(g, s, t)` with `g = gcd(a, b)` and the
/// Bezout coefficients that the recurrence produces.
pub open spec fn ext_gcd(a: nat, b: nat) -> (int, int, int)
    decreases b,
{
    if b == 0 {
        (a as int, 1, 0)
    } else {
        let r = ext_gcd(b, a % b);
        (r.0, r.2, r.1 - (a / b) as int * r.2)
    }
}

/// The element of `f` that stands for the integer `n`.
pub open spec fn reduce(n: int, f: Field) -> FieldElement {
    FieldElement { num: (n % (f.prime as int)) as i128, field: f }
}

/// Value of a byte string read as a big-endian unsigned integer.
pub open spec fn be_value(s: Seq<u8>) -> nat
    decreases s.len(),
{
    if s.len() == 0 {
        0
    } else {
        be_value(s.drop_last()) * 256 + s.last() as nat
    }
}

/// `x` is a primitive `n`-th root of unity: `x^n == 1`, and no smaller
/// positive power of `x` is `1`.
pub open spec fn is_primitive_root(x: FieldElement, n: nat) -> bool {
    let p = x.field.prime as int;
    &&& pow(x.num as int, n) % p == 1
    &&& forall|k: nat| 0 < k < n ==> #[trigger] pow(x.num as int, k) % p != 1
}

/// `p` is a prime number.
pub open spec fn is_prime(p: int) -> bool {
    &&& p >= 2
    &&& forall|d: int| 1 < d < p ==> #[trigger] (p % d) != 0
}

/// The multiplicative inverse of `x` modulo `p` that the extended Euclidean
/// algorithm yields, reduced into `[0, p)`.
pub open spec fn inverse_num(x: int, p: int) -> int {
    ext_gcd(x as nat, p as nat).1 % p
}

impl Field {
    pub open spec fn wf(self) -> bool {
        2 <= self.prime <= MAX_PRIME
    }

    pub open spec fn owns(self, x: FieldElement) -> bool {
        x.field == self
    }

    pub open spec fn owns_both(self, x: FieldElement, y: FieldElement) -> bool {
        x.field == self && y.field == self
    }

    pub open spec fn add_spec(self, x: FieldElement, y: FieldElement) -> Result<FieldElement, FriError> {
        if self.owns_both(x, y) {
            Ok(reduce(x.num + y.num, self))
        } else {
            Err(FriError::FieldMismatch)
        }
    }

    pub open spec fn sub_spec(self, x: FieldElement, y: FieldElement) -> Result<FieldElement, FriError> {
        if self.owns_both(x, y) {
            Ok(reduce(x.num - y.num, self))
        } else {
            Err(FriError::FieldMismatch)
        }
    }

    pub open spec fn mul_spec(self, x: FieldElement, y: FieldElement) -> Result<FieldElement, FriError> {
        if self.owns_both(x, y) {
            Ok(reduce(x.num * y.num, self))
        } else {
            Err(FriError::FieldMismatch)
        }
    }

    pub open spec fn neg_spec(self, x: FieldElement) -> Result<FieldElement, FriError> {
        if self.owns(x) {
            Ok(reduce(-x.num, self))
        } else {
            Err(FriError::FieldMismatch)
        }
    }

    pub open spec fn inv_spec(self, x: FieldElement) -> Result<FieldElement, FriError> {
        if !self.owns(x) {
            Err(FriError::FieldMismatch)
        } else if gcd(x.num as nat, self.prime as nat) != 1 {
            Err(FriError::NotInvertible)
        } else {
            Ok(reduce(inverse_num(x.num as int, self.prime as int), self))
        }
    }

    pub open spec fn div_spec(self, x: FieldElement, y: FieldElement) -> Result<FieldElement, FriError> {
        if !self.owns_both(x, y) {
            Err(FriError::FieldMismatch)
        } else if y.num == 0 {
            Err(FriError::DivisionByZero)
        } else if gcd(y.num as nat, self.prime as nat) != 1 {
            Err(FriError::NotInvertible)
        } else {
            Ok(reduce(x.num * inverse_num(y.num as int, self.prime as int), self))
        }
    }
}

impl FieldElement {
    /// Canonical: the field is valid and the value is reduced into it.
    pub open spec fn wf(self) -> bool {
        &&& self.field.wf()
        &&& 0 <= self.num < self.field.prime
    }
}

/// Relies on `modulo::Mod::modulo`: for a positive modulus, the remainder of
/// `%`, moved into `[0, m)` by adding `m` when it is negative.
#[verifier::external_body]
pub(crate) fn modulo_i128(a: i128, m: i128) -> (r: i128)
    requires
        m > 0,
    ensures
        r as int == a as int % m as int,
{
    a.modulo(m)
}

/// The value that `inverse_num` gives is an inverse whenever `gcd(x, p) == 1`.
pub(crate) proof fn lemma_inverse_num(x: int, p: int)
    requires
        0 <= x < p,
        p >= 2,
        gcd(x as nat, p as nat) == 1,
    ensures
        0 <= inverse_num(x, p) < p,
        (inverse_num(x, p) * x) % p == 1,
{
    lemma_ext_gcd(x as nat, p as nat);
    let e = ext_gcd(x as nat, p as nat);
    lemma_mul_mod_noop_left(e.1, x, p);
    assert(e.1 * x == p * (-e.2) + 1) by (nonlinear_arith)
        requires
            x * e.1 + p * e.2 == 1,
    ;
    lemma_mod_multiples_vanish(-e.2, 1, p);
    lemma_small_mod(1, p as nat);
}

/// Bezout's identity for the extended Euclidean algorithm: its first result
/// is `gcd(a, b)`, and `a * s + b * t` equals it.
pub proof fn lemma_ext_gcd(a: nat, b: nat)
    ensures
        ext_gcd(a, b).0 == gcd(a, b) as int,
        a * ext_gcd(a, b).1 + b * ext_gcd(a, b).2 == ext_gcd(a, b).0,
    decreases b,
{
    if b != 0 {
        let r = ext_gcd(b, a % b);
        lemma_ext_gcd(b, a % b);
        lemma_fundamental_div_mod(a as int, b as int);
        let q = (a / b) as int;
        let m = (a % b) as int;
        assert(a * r.2 + b * (r.1 - q * r.2) == b * r.1 + m * r.2) by (nonlinear_arith)
            requires
                a == b * q + m,
        ;
    }
}

proof fn lemma_euclid_step(old_r: int, r: int, old_s: int, s: int, q: int, bound: int)
    requires
        r > 0,
        old_r >= 0,
        0 <= old_r - q * r < r,
        q >= 0,
        old_r * abs(s) + r * abs(old_s) == bound,
        old_s * s <= 0,
    ensures
        r * abs(old_s - q * s) + (old_r - q * r) * abs(s) == bound,
        s * (old_s - q * s) <= 0,
        abs(q * s) <= bound,
        abs(old_s - q * s) <= bound,
{
    let ns = old_s - q * s;
    let nr = old_r - q * r;
    assert(abs(ns) == abs(old_s) + q * abs(s)) by (nonlinear_arith)
        requires
            ns == old_s - q * s,
            old_s * s <= 0,
            q >= 0,
    ;
    assert(r * abs(ns) + nr * abs(s) == bound) by (nonlinear_arith)
        requires
            abs(ns) == abs(old_s) + q * abs(s),
            nr == old_r - q * r,
            old_r * abs(s) + r * abs(old_s) == bound,
    ;
    assert(s * ns <= 0) by (nonlinear_arith)
        requires
            ns == old_s - q * s,
            old_s * s <= 0,
            q >= 0,
    ;
    assert(r * abs(ns) <= bound) by (nonlinear_arith)
        requires
            r * abs(ns) + nr * abs(s) == bound,
            nr >= 0,
            abs(s) >= 0,
    ;
    assert(abs(ns) <= bound) by (nonlinear_arith)
        requires
            r * abs(ns) <= bound,
            r >= 1,
            abs(ns) >= 0,
    ;
    assert(abs(q * s) == q * abs(s)) by (nonlinear_arith)
        requires
            q >= 0,
    ;
}

impl FieldElement {
    /// The element of `field` congruent to `num`.
    pub fn new(num: i128, field: Field) -> (r: Self)
        requires
            field.wf(),
        ensures
            r == reduce(num as int, field),
            r.wf(),
    {
        let num = modulo_i128(num, field.prime);
        Self { num, field }
    }

    /// The element that the first eight bytes stand for, read as a big-endian
    /// unsigned integer and reduced into the field.
    pub fn from_bytes(bytes: &[u8], field: Field) -> (r: Self)
        requires
            bytes@.len() >= 8,
            field.wf(),
        ensures
            r == reduce(be_value(bytes@.subrange(0, 8)) as int, field),
            r.wf(),
    {
        let mut v: i128 = 0;
        let mut i: usize = 0;
        proof {
            lemma_pow0(256);
            assert(bytes@.subrange(0, 0) =~= Seq::<u8>::empty());
            lemma_pow_256_8();
        }
        while i < 8
            invariant
                i <= 8,
                bytes@.len() >= 8,
                v == be_value(bytes@.subrange(0, i as int)),
                v < pow(256, i as nat),
            decreases 8 - i,
        {
            proof {
                let pre = bytes@.subrange(0, i as int + 1);
                assert(pre.drop_last() =~= bytes@.subrange(0, i as int));
                lemma_pow_increases(256, i as nat, 8);
                lemma_pow_256_8();
                lemma_pow_adds(256, i as nat, 1);
                lemma_pow1(256);
                assert(v * 256 + bytes@[i as int] < 256 * pow(256, i as nat)) by (nonlinear_arith)
                    requires
                        v < pow(256, i as nat),
                        0 <= bytes@[i as int] < 256,
                ;
            }
            v = v * 256 + bytes[i] as i128;
            i = i + 1;
        }
        FieldElement::new(v, field)
    }

    /// Whether the element is canonical: a valid field, a reduced value.
    pub fn is_canonical(&self) -> (b: bool)
        ensures
            b == self.wf(),
    {
        2 <= self.field.prime && self.field.prime <= MAX_PRIME && 0 <= self.num && self.num < self.field.prime
    }

    /// `self` raised to `exponent`, by repeated squaring.
    pub fn pow(&self, exponent: u32) -> (r: Self)
        requires
            self.wf(),
        ensures
            r == reduce(pow(self.num as int, exponent as nat), self.field),
            r.wf(),
    {
        let p = self.field.prime;
        let mut result: i128 = modulo_i128(1, p);
        let mut base: i128 = self.num;
        let mut e: u32 = exponent;
        proof {
            lemma_small_mod(1, p as nat);
        }
        while e > 0
            invariant
                self.wf(),
                p == self.field.prime,
                0 <= result < p,
                0 <= base < p,
                (result * pow(base as int, e as nat)) % (p as int) == pow(self.num as int, exponent as nat) % (p as int),
            decreases e,
        {
            proof {
                lemma_pow_loop_step(result as int, base as int, e as nat, p as int);
                lemma_product_fits(result as int, base as int, p as int);
                lemma_product_fits(base as int, base as int, p as int);
            }
            if e % 2 == 1 {
                result = modulo_i128(result * base, p);
            }
            base = modulo_i128(base * base, p);
            e = e / 2;
        }
        proof {
            lemma_pow0(base as int);
            lemma_small_mod(result as nat, p as nat);
        }
        FieldElement { num: result, field: self.field }
    }

    /// The multiplicative inverse, computed by the element's field.
    pub fn inverse(&self) -> (r: Result<Self, FriError>)
        requires
            self.wf(),
        ensures
            r == self.field.inv_spec(*self),
            r matches Ok(v) ==> v.wf() && (v.num * self.num) % (self.field.prime as int) == 1,
    {
        self.field.inverse(*self)
    }

    /// `self + rhs`; fails when the two belong to different fields.
    pub fn add(self, rhs: Self) -> (r: Result<Self, FriError>)
        requires
            self.wf(),
            rhs.wf(),
        ensures
            r == self.field.add_spec(self, rhs),
            r matches Ok(v) ==> v.wf(),
    {
        self.field.add(self, rhs)
    }

    /// `self - rhs`; fails when the two belong to different fields.
    pub fn sub(self, rhs: Self) -> (r: Result<Self, FriError>)
        requires
            self.wf(),
            rhs.wf(),
        ensures
            r == self.field.sub_spec(self, rhs),
            r matches Ok(v) ==> v.wf(),
    {
        self.field.subtract(self, rhs)
    }

    /// `self * rhs`; fails when the two belong to different fields.
    pub fn mul(self, rhs: Self) -> (r: Result<Self, FriError>)
        requires
            self.wf(),
            rhs.wf(),
        ensures
            r == self.field.mul_spec(self, rhs),
            r matches Ok(v) ==> v.wf(),
    {
        self.field.multiply(self, rhs)
    }

    /// `self / rhs`; fails on different fields, a zero divisor, or a divisor
    /// without inverse.
    pub fn div(self, rhs: Self) -> (r: Result<Self, FriError>)
        requires
            self.wf(),
            rhs.wf(),
        ensures
            r == self.field.div_spec(self, rhs),
            r matches Ok(v) ==> v.wf() && (v.num * rhs.num) % (self.field.prime as int) == self.num,
    {
        self.field.divide(self, rhs)
    }

    /// `-self`.
    pub fn neg(self) -> (r: Self)
        requires
            self.wf(),
        ensures
            self.field.neg_spec(self) == Ok::<FieldElement, FriError>(r),
            r.wf(),
    {
        match self.field.negate(self) {
            Ok(v) => v,
            // unreachable: an element belongs to its own field
            Err(_) => self,
        }
    }
}

impl Field {
    /// The field of integers modulo `prime`; operations ask for
    /// `2 <= prime <= MAX_PRIME`.
    pub fn new(prime: i128) -> (r: Self)
        ensures
            r.prime == prime,
    {
        Self { prime }
    }

    /// The additive identity.
    pub fn zero(&self) -> (r: FieldElement)
        requires
            self.wf(),
        ensures
            r == (FieldElement { num: 0, field: *self }),
            r.wf(),
    {
        FieldElement { num: 0, field: *self }
    }

    /// The multiplicative identity.
    pub fn one(&self) -> (r: FieldElement)
        requires
            self.wf(),
        ensures
            r == (FieldElement { num: 1, field: *self }),
            r.wf(),
    {
        FieldElement { num: 1, field: *self }
    }

    /// `left * right`; fails when either lies in another field.
    pub fn multiply(&self, left: FieldElement, right: FieldElement) -> (r: Result<FieldElement, FriError>)
        requires
            self.wf(),
            left.wf(),
            right.wf(),
        ensures
            r == self.mul_spec(left, right),
            r matches Ok(v) ==> v.wf(),
    {
        if left.field != *self || right.field != *self {
            return Err(FriError::FieldMismatch);
        }
        proof {
            lemma_product_fits(left.num as int, right.num as int, self.prime as int);
        }
        Ok(FieldElement { num: modulo_i128(left.num * right.num, self.prime), field: *self })
    }

    /// `left + right`; fails when either lies in another field.
    pub fn add(&self, left: FieldElement, right: FieldElement) -> (r: Result<FieldElement, FriError>)
        requires
            self.wf(),
            left.wf(),
            right.wf(),
        ensures
            r == self.add_spec(left, right),
            r matches Ok(v) ==> v.wf(),
    {
        if left.field != *self || right.field != *self {
            return Err(FriError::FieldMismatch);
        }
        Ok(FieldElement { num: modulo_i128(left.num + right.num, self.prime), field: *self })
    }

    /// `left - right`; fails when either lies in another field.
    pub fn subtract(&self, left: FieldElement, right: FieldElement) -> (r: Result<FieldElement, FriError>)
        requires
            self.wf(),
            left.wf(),
            right.wf(),
        ensures
            r == self.sub_spec(left, right),
            r matches Ok(v) ==> v.wf(),
    {
        if left.field != *self || right.field != *self {
            return Err(FriError::FieldMismatch);
        }
        proof {
            lemma_mod_add_multiples_vanish(left.num - right.num, self.prime as int);
        }
        Ok(FieldElement { num: modulo_i128(self.prime + left.num - right.num, self.prime), field: *self })
    }

    /// `left / right`: `left` times the inverse of `right`.
    pub fn divide(&self, left: FieldElement, right: FieldElement) -> (r: Result<FieldElement, FriError>)
        requires
            self.wf(),
            left.wf(),
            right.wf(),
        ensures
            r == self.div_spec(left, right),
            r matches Ok(v) ==> v.wf() && (v.num * right.num) % (self.prime as int) == left.num,
    {
        if left.field != *self || right.field != *self {
            return Err(FriError::FieldMismatch);
        }
        if right.num == 0 {
            return Err(FriError::DivisionByZero);
        }
        let inv = match self.inverse(right) {
            Ok(v) => v,
            Err(e) => {
                return Err(e);
            },
        };
        let r = self.multiply(left, inv);
        proof {
            let p = self.prime as int;
            let i = inv.num as int;
            let x = left.num as int;
            let y = right.num as int;
            lemma_inverse_num(y, p);
            lemma_mod_twice(ext_gcd(y as nat, p as nat).1, p);
            lemma_mul_mod_noop_left(x * i, y, p);
            assert((x * i) * y == x * (i * y)) by (nonlinear_arith);
            lemma_mul_mod_noop_right(x, i * y, p);
            lemma_small_mod(x as nat, p as nat);
        }
        r
    }

    /// The multiplicative inverse of `operand`, from the extended Euclidean
    /// algorithm on `(operand, prime)`.
    pub fn inverse(&self, operand: FieldElement) -> (r: Result<FieldElement, FriError>)
        requires
            self.wf(),
            operand.wf(),
        ensures
            r == self.inv_spec(operand),
            r matches Ok(v) ==> v.wf() && (v.num * operand.num) % (self.prime as int) == 1,
    {
        if operand.field != *self {
            return Err(FriError::FieldMismatch);
        }
        let (g, s, _t) = extended_euclidean_algorithm(operand.num, self.prime);
        if g != 1 {
            return Err(FriError::NotInvertible);
        }
        proof {
            lemma_inverse_num(operand.num as int, self.prime as int);
            lemma_mod_twice(s as int, self.prime as int);
        }
        Ok(FieldElement { num: modulo_i128(s, self.prime), field: *self })
    }

    /// The additive inverse of `operand`.
    pub fn negate(&self, operand: FieldElement) -> (r: Result<FieldElement, FriError>)
        requires
            self.wf(),
            operand.wf(),
        ensures
            r == self.neg_spec(operand),
            r matches Ok(v) ==> v.wf(),
    {
        if operand.field != *self {
            return Err(FriError::FieldMismatch);
        }
        proof {
            lemma_mod_add_multiples_vanish(-operand.num, self.prime as int);
        }
        Ok(FieldElement { num: modulo_i128(self.prime - operand.num, self.prime), field: *self })
    }

    /// The fixed generator `GENERATOR`, reduced into the field.
    pub fn generator(&self) -> (r: FieldElement)
        requires
            self.wf(),
        ensures
            r == reduce(GENERATOR as int, *self),
            r.wf(),
    {
        FieldElement::new(GENERATOR, *self)
    }

    /// A primitive `n`-th root of unity: `generator^(order / n)`, where
    /// `order` is the configured multiplicative order of `generator`. The
    /// candidate is checked, so a wrong configuration is caught: fails with
    /// `FieldMismatch` when `generator` lies in another field, and with
    /// `MalformedInput` when `n` is zero, does not divide `order`, or the
    /// candidate is no primitive `n`-th root.
    pub fn primitive_nth_root(&self, generator: FieldElement, order: u32, n: u32) -> (r: Result<
        FieldElement,
        FriError,
    >)
        requires
            self.wf(),
            generator.wf(),
        ensures
            r == if generator.field != *self {
                Err(FriError::FieldMismatch)
            } else if n == 0 || order % n != 0 {
                Err(FriError::MalformedInput)
            } else if !is_primitive_root(reduce(pow(generator.num as int, (order / n) as nat), *self), n as nat) {
                Err(FriError::MalformedInput)
            } else {
                Ok(reduce(pow(generator.num as int, (order / n) as nat), *self))
            },
            r matches Ok(x) ==> x.wf() && is_primitive_root(x, n as nat),
    {
        if generator.field != *self {
            return Err(FriError::FieldMismatch);
        }
        if n == 0 || order % n != 0 {
            return Err(FriError::MalformedInput);
        }
        let root = generator.pow(order / n);
        let p = self.prime;
        let ghost rv = root.num as int;
        let mut x: i128 = root.num;
        let mut k: u32 = 1;
        proof {
            lemma_pow1(rv);
            lemma_small_mod(rv as nat, p as nat);
        }
        while k < n
            invariant
                self.wf(),
                p == self.prime,
                root.wf(),
                root.field == *self,
                rv == root.num,
                generator.field == *self,
                n > 0,
                order % n == 0,
                root == reduce(pow(generator.num as int, (order / n) as nat), *self),
                1 <= k <= n,
                0 <= x < p,
                x as int == pow(rv, k as nat) % (p as int),
                forall|j: nat| 0 < j < k ==> #[trigger] pow(rv, j) % (p as int) != 1,
            decreases n - k,
        {
            if x == 1 {
                proof {
                    assert(pow(rv, k as nat) % (p as int) == 1);
                    assert(!is_primitive_root(root, n as nat));
                }
                return Err(FriError::MalformedInput);
            }
            proof {
                lemma_product_fits(x as int, rv, p as int);
                lemma_mul_mod_noop_left(pow(rv, k as nat), rv, p as int);
                lemma_pow_adds(rv, k as nat, 1);
                lemma_pow1(rv);
            }
            x = modulo_i128(x * root.num, p);
            k = k + 1;
        }
        if x != 1 {
            return Err(FriError::MalformedInput);
        }
        Ok(root)
    }

    /// The element that a byte string stands for: its big-endian unsigned
    /// value, reduced modulo the field's prime.
    pub fn sample(self, byte_array: Vec<u8>) -> (r: FieldElement)
        requires
            self.wf(),
        ensures
            r == reduce(be_value(byte_array@) as int, self),
            r.wf(),
    {
        let mut acc: i128 = 0;
        let mut i: usize = 0;
        proof {
            assert(byte_array@.subrange(0, 0) =~= Seq::<u8>::empty());
            lemma_small_mod(0, self.prime as nat);
        }
        while i < byte_array.len()
            invariant
                self.wf(),
                i <= byte_array@.len(),
                0 <= acc < self.prime,
                acc as int == be_value(byte_array@.subrange(0, i as int)) as int % (self.prime as int),
            decreases byte_array@.len() - i,
        {
            proof {
                let p = self.prime as int;
                let pre = byte_array@.subrange(0, i as int + 1);
                assert(pre.drop_last() =~= byte_array@.subrange(0, i as int));
                let v = be_value(byte_array@.subrange(0, i as int)) as int;
                lemma_mul_mod_noop_left(v, 256, p);
                lemma_add_mod_noop(v * 256, byte_array@[i as int] as int, p);
                lemma_add_mod_noop(acc * 256, byte_array@[i as int] as int, p);
            }
            acc = modulo_i128(acc * 256 + byte_array[i] as i128, self.prime);
            i = i + 1;
        }
        proof {
            assert(byte_array@.subrange(0, byte_array@.len() as int) =~= byte_array@);
            lemma_mod_twice(be_value(byte_array@) as int, self.prime as int);
        }
        FieldElement::new(acc, self)
    }
}

pub(crate) proof fn lemma_pow_256_8()
    ensures
        pow(256, 8) == 0x1_0000_0000_0000_0000,
{
    lemma_pow1(256);
    lemma_pow_adds(256, 1, 1);
    assert(pow(256, 2) == 0x1_0000);
    lemma_pow_adds(256, 2, 2);
    assert(pow(256, 4) == 0x1_0000_0000);
    lemma_pow_adds(256, 4, 4);
    assert(pow(256, 8) == 0x1_0000_0000 * 0x1_0000_0000);
}

/// Products of two reduced elements fit in `i128`.
pub(crate) proof fn lemma_product_fits(a: int, b: int, p: int)
    requires
        0 <= a < p,
        0 <= b < p,
        p <= MAX_PRIME,
    ensures
        0 <= a * b < 0x4000_0000_0000_0000_0000_0000_0000_0000,
{
    assert(0 <= a * b <= p * p) by (nonlinear_arith)
        requires
            0 <= a < p,
            0 <= b < p,
    ;
    assert(p * p <= MAX_PRIME * MAX_PRIME) by (nonlinear_arith)
        requires
            0 <= p <= MAX_PRIME,
    ;
}

proof fn lemma_pow_loop_step(res: int, b: int, e: nat, p: int)
    requires
        p >= 2,
        e > 0,
    ensures
        ({
            let c = if e % 2 == 1 { b } else { 1 };
            let res2 = if e % 2 == 1 { (res * b) % p } else { res };
            (res2 * pow((b * b) % p, e / 2)) % p == (res * pow(b, e)) % p
        }),
{
    let k = e / 2;
    let c = if e % 2 == 1 { b } else { 1 };
    let res2 = if e % 2 == 1 { (res * b) % p } else { res };
    let bb = b * b;
    // pow(b, e) == c * pow(b * b, k)
    lemma_pow_adds(b, 2 * k, (e % 2) as nat);
    lemma_pow_multiplies(b, 2, k);
    lemma_square_is_pow2(b);
    lemma_pow0(b);
    lemma_pow1(b);
    assert(e == 2 * k + e % 2);
    assert(pow(b, e) == pow(b, 2 * k) * pow(b, (e % 2) as nat));
    assert(pow(b, 2 * k) == pow(bb, k));
    if e % 2 == 1 {
        assert(pow(b, (e % 2) as nat) == b);
        assert(pow(b, e) == pow(bb, k) * b);
        assert(pow(b, e) == c * pow(bb, k)) by (nonlinear_arith)
            requires
                pow(b, e) == pow(bb, k) * b,
                c == b,
        ;
    } else {
        assert(pow(b, (e % 2) as nat) == 1);
        assert(pow(b, e) == c * pow(bb, k));
    }
    // reduce the base, then the accumulator
    lemma_pow_mod_noop(bb, k, p);
    lemma_mul_mod_noop_right(res2, pow(bb % p, k), p);
    lemma_mul_mod_noop_right(res2, pow(bb, k), p);
    if e % 2 == 1 {
        lemma_mul_mod_noop_left(res * b, pow(bb, k), p);
        assert((res * b) * pow(bb, k) == res * (b * pow(bb, k))) by (nonlinear_arith);
    }
}

proof fn lemma_gcd_divides(a: nat, b: nat)
    requires
        a > 0 || b > 0,
    ensures
        gcd(a, b) > 0,
        a % gcd(a, b) == 0,
        b % gcd(a, b) == 0,
    decreases b,
{
    if b == 0 {
        lemma_mod_self_0(a as int);
        lemma_small_mod(0, a);
    } else {
        let m = a % b;
        lemma_gcd_divides(b, m);
        let g = gcd(b, m) as int;
        let q = (a / b) as int;
        lemma_fundamental_div_mod(a as int, b as int);
        lemma_fundamental_div_mod(b as int, g);
        lemma_fundamental_div_mod(m as int, g);
        let k = (b as int / g) * q + (m as int / g);
        assert(a as int == k * g) by (nonlinear_arith)
            requires
                a as int == b as int * q + m as int,
                b as int == g * (b as int / g),
                m as int == g * (m as int / g),
                k == (b as int / g) * q + (m as int / g),
        ;
        lemma_mod_multiples_basic(k, g);
    }
}

/// A prime is coprime to every value strictly between zero and itself.
proof fn lemma_prime_coprime(x: nat, p: nat)
    requires
        is_prime(p as int),
        0 < x < p,
    ensures
        gcd(x, p) == 1,
{
    lemma_gcd_divides(x, p);
    let g = gcd(x, p) as int;
    lemma_fundamental_div_mod(x as int, g);
    if x as int / g == 0 {
        assert(false);
    }
    assert(g <= x) by (nonlinear_arith)
        requires
            x as int == g * (x as int / g),
            x as int / g >= 1,
            g > 0,
    {
        lemma_div_pos_is_pos(x as int, g);
    }
    if g > 1 {
        assert(p as int % g != 0);
    }
}

/// Field identities in a prime field: `(x + y) - y == x`, `(x * y) / y == x`
/// for `y != 0`, and `x * inverse(x) == 1` for `x != 0`.
pub proof fn lemma_field_laws(f: Field, x: FieldElement, y: FieldElement)
    requires
        f.wf(),
        is_prime(f.prime as int),
        x.wf(),
        y.wf(),
        x.field == f,
        y.field == f,
    ensures
        f.add_spec(x, y) matches Ok(s) && f.sub_spec(s, y) == Ok::<FieldElement, FriError>(x),
        y.num != 0 ==> (f.mul_spec(x, y) matches Ok(m) && f.div_spec(m, y) == Ok::<FieldElement, FriError>(x)),
        x.num != 0 ==> (f.inv_spec(x) matches Ok(i) && f.mul_spec(x, i) == Ok::<FieldElement, FriError>(
            FieldElement { num: 1, field: f },
        )),
{
    let p = f.prime as int;
    let a = x.num as int;
    let b = y.num as int;
    lemma_small_mod(a as nat, p as nat);
    lemma_small_mod(b as nat, p as nat);
    // (x + y) - y
    lemma_sub_mod_noop(a + b, b, p);
    assert((a + b) - b == a);
    // (x * y) / y
    if b != 0 {
        lemma_prime_coprime(b as nat, p as nat);
        lemma_inverse_num(b, p);
        let i = inverse_num(b, p);
        lemma_mul_mod_noop_left(a * b, i, p);
        assert((a * b) * i == a * (i * b)) by (nonlinear_arith);
        lemma_mul_mod_noop_right(a, i * b, p);
        let m = reduce(a * b, f);
        assert(m.num as int == (a * b) % p);
    }
    // x * inverse(x)
    if a != 0 {
        lemma_prime_coprime(a as nat, p as nat);
        lemma_inverse_num(a, p);
        let i = inverse_num(a, p);
        lemma_mod_twice(ext_gcd(a as nat, p as nat).1, p);
        assert(a * i == i * a) by (nonlinear_arith);
    }
}

/// Extended Euclidean algorithm on non-negative integers: returns `(g, s, t)`
/// with `g = gcd(a, b)` and `a * s + b * t == g`.
pub fn extended_euclidean_algorithm(a: i128, b: i128) -> (r: (i128, i128, i128))
    requires
        0 <= a,
        0 <= b,
    ensures
        (r.0 as int, r.1 as int, r.2 as int) == ext_gcd(a as nat, b as nat),
        r.0 as int == gcd(a as nat, b as nat),
        a * r.1 + b * r.2 == r.0,
{
    let mut old_r: i128 = a;
    let mut r: i128 = b;
    let mut old_s: i128 = 1;
    let mut s: i128 = 0;
    let mut old_t: i128 = 0;
    let mut t: i128 = 1;
    assert(a * abs(0) + b * abs(1) == b && a * abs(1) + b * abs(0) == a) by (nonlinear_arith);
    while r != 0
        invariant
            0 <= a,
            0 <= b,
            0 <= old_r,
            0 <= r,
            ext_gcd(a as nat, b as nat) == ({
                let e = ext_gcd(old_r as nat, r as nat);
                (e.0, e.1 * old_s + e.2 * s, e.1 * old_t + e.2 * t)
            }),
            old_r * abs(s as int) + r * abs(old_s as int) == b,
            old_r * abs(t as int) + r * abs(old_t as int) == a,
            old_s * s <= 0,
            old_t * t <= 0,
        decreases r,
    {
        let quotient = old_r / r;
        proof {
            lemma_fundamental_div_mod(old_r as int, r as int);
            lemma_mod_pos_bound(old_r as int, r as int);
            assert(quotient as int == (old_r as int) / (r as int));
            assert(old_r - quotient * r == old_r % r) by (nonlinear_arith)
                requires
                    quotient as int == (old_r as int) / (r as int),
                    old_r as int == (r as int) * ((old_r as int) / (r as int)) + (old_r as int) % (r as int),
            ;
            lemma_euclid_step(old_r as int, r as int, old_s as int, s as int, quotient as int, b as int);
            lemma_euclid_step(old_r as int, r as int, old_t as int, t as int, quotient as int, a as int);
            let e = ext_gcd(r as nat, (old_r % r) as nat);
            let q = quotient as int;
            assert(ext_gcd(old_r as nat, r as nat) == (e.0, e.2, e.1 - q * e.2));
            assert(e.1 * s + e.2 * (old_s - q * s) == e.2 * old_s + (e.1 - q * e.2) * s)
                by (nonlinear_arith);
            assert(e.1 * t + e.2 * (old_t - q * t) == e.2 * old_t + (e.1 - q * e.2) * t)
                by (nonlinear_arith);
        }
        let next_r = old_r - quotient * r;
        let next_s = old_s - quotient * s;
        let next_t = old_t - quotient * t;
        old_r = r;
        r = next_r;
        old_s = s;
        s = next_s;
        old_t = t;
        t = next_t;
    }
    proof {
        lemma_ext_gcd(a as nat, b as nat);
        let e = ext_gcd(old_r as nat, 0);
        assert(e == (old_r as int, 1int, 0int));
        assert(e.1 * old_s + e.2 * s == old_s && e.1 * old_t + e.2 * t == old_t)
            by (nonlinear_arith)
            requires
                e.1 == 1,
                e.2 == 0,
        ;
    }
    (old_r, old_s, old_t)
}

} // verus!
