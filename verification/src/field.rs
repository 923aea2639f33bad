//! The prime field F_p with p = 97.

use vstd::prelude::*;
use vstd::arithmetic::div_mod::*;
use vstd::arithmetic::power::*;

verus! {

/// An element of the prime field F_p; its representative is always reduced modulo `P`.
#[derive(Copy, Clone, Debug, PartialEq, Eq, Hash, Structural)]
pub struct F {
    value: u32,
}

/// The modulus of the field as a mathematical integer.
pub open spec fn modulus() -> int {
    97
}

/// Congruence modulo the prime.
pub open spec fn cong(a: int, b: int) -> bool {
    a % modulus() == b % modulus()
}

/// Congruences add.
pub proof fn lemma_cong_add(a: int, b: int, c: int, d: int)
    requires
        cong(a, b),
        cong(c, d),
    ensures
        cong(a + c, b + d),
{
    lemma_add_mod_noop(a, c, 97);
    lemma_add_mod_noop(b, d, 97);
}

/// Congruences subtract.
pub proof fn lemma_cong_sub(a: int, b: int, c: int, d: int)
    requires
        cong(a, b),
        cong(c, d),
    ensures
        cong(a - c, b - d),
{
    lemma_sub_mod_noop(a, c, 97);
    lemma_sub_mod_noop(b, d, 97);
}

/// A congruence survives multiplication by any integer, on either side.
pub proof fn lemma_cong_mul(a: int, b: int, k: int)
    requires
        cong(a, b),
    ensures
        cong(a * k, b * k),
        cong(k * a, k * b),
{
    lemma_mul_mod_noop_left(a, k, 97);
    lemma_mul_mod_noop_left(b, k, 97);
    assert(a * k == k * a && b * k == k * b) by (nonlinear_arith);
}

/// Reducing modulo the prime keeps the congruence class.
pub proof fn lemma_cong_mod(a: int)
    ensures
        cong(a % 97, a),
{
    lemma_mod_twice(a, 97);
}

/// One accumulation step `acc + a * b` of field elements tracks the integer sum `s + a' * b'`
/// when the operands are congruent to `s`, `a'` and `b'`.
pub proof fn lemma_accumulate(acc: int, a: int, b: int, s: int, a2: int, b2: int)
    requires
        cong(acc, s),
        cong(a, a2),
        cong(b, b2),
    ensures
        cong((acc + (a * b) % 97) % 97, s + a2 * b2),
{
    lemma_cong_mod(a * b);
    lemma_cong_mul(a, a2, b);
    lemma_cong_mul(b, b2, a2);
    lemma_cong_add(acc, s, (a * b) % 97, a2 * b2);
    lemma_cong_mod(acc + (a * b) % 97);
}

/// 97 is prime: a product of two elements that are nonzero in the field is nonzero.
pub proof fn lemma_no_zero_divisors(a: int, b: int)
    requires
        a % modulus() != 0,
        b % modulus() != 0,
    ensures
        (a * b) % modulus() != 0,
{
    let (ra, rb) = (a % 97, b % 97);
    let (a8, b8) = (ra as u8, rb as u8);
    assert(a8 as int == ra && b8 as int == rb);
    assert(0 < a8 < 97 && 0 < b8 < 97 ==> ((a8 as u16) * (b8 as u16)) % 97 != 0) by (bit_vector);
    assert((a8 as u16) * (b8 as u16) == ra * rb) by (nonlinear_arith)
        requires a8 as int == ra, b8 as int == rb, 0 <= ra < 97, 0 <= rb < 97;
    lemma_mul_mod_noop_general(a, b, 97);
}

/// The absolute value of an integer.
pub open spec fn abs(x: int) -> int {
    if x < 0 { -x } else { x }
}

/// One step of the extended Euclidean algorithm keeps the coefficient invariants.
proof fn lemma_euclid_step(t: int, nt: int, r: int, nr: int, q: int)
    requires
        0 < nr < r,
        q == r / nr,
        r == nr * q + r % nr,
        0 <= r % nr < nr,
        nt != 0,
        t * nt <= 0,
        r * abs(nt) + nr * abs(t) == 97,
    ensures
        q >= 1,
        (t - q * nt) != 0,
        nt * (t - q * nt) <= 0,
        nr * abs(t - q * nt) + (r - q * nr) * abs(nt) == 97,
        r - q * nr == r % nr,
        -97 <= t - q * nt <= 97,
{
    assert(q >= 1) by (nonlinear_arith)
        requires 0 < nr < r, r == nr * q + r % nr, 0 <= r % nr < nr;
    assert(nr * q == q * nr) by (nonlinear_arith);
    if nt > 0 {
        assert(t <= 0) by (nonlinear_arith) requires t * nt <= 0, nt > 0;
        assert(abs(t - q * nt) == abs(t) + q * abs(nt)) by (nonlinear_arith)
            requires nt > 0, t <= 0, q >= 1;
        assert(nt * (t - q * nt) <= 0) by (nonlinear_arith)
            requires nt > 0, t <= 0, q >= 1;
    } else {
        assert(t >= 0) by (nonlinear_arith) requires t * nt <= 0, nt < 0;
        assert(abs(t - q * nt) == abs(t) + q * abs(nt)) by (nonlinear_arith)
            requires nt < 0, t >= 0, q >= 1;
        assert(nt * (t - q * nt) <= 0) by (nonlinear_arith)
            requires nt < 0, t >= 0, q >= 1;
    }
    assert(abs(t - q * nt) >= 1) by (nonlinear_arith)
        requires abs(t - q * nt) == abs(t) + q * abs(nt), q >= 1, abs(nt) >= 1, abs(t) >= 0;
    assert(nr * abs(t - q * nt) + (r - q * nr) * abs(nt) == 97) by (nonlinear_arith)
        requires
            abs(t - q * nt) == abs(t) + q * abs(nt),
            r * abs(nt) + nr * abs(t) == 97;
    assert(abs(t - q * nt) <= 97) by (nonlinear_arith)
        requires nr * abs(t - q * nt) + (r - q * nr) * abs(nt) == 97, nr >= 1,
            r - q * nr >= 0, abs(nt) >= 0;
}

/// If `m` divides `x` and `y`, it divides `x - q * y`.
proof fn lemma_sub_multiple_mod(x: int, y: int, q: int, m: int)
    requires
        m > 0,
        x % m == 0,
        y % m == 0,
    ensures
        (x - q * y) % m == 0,
{
    lemma_fundamental_div_mod(x, m);
    lemma_fundamental_div_mod(y, m);
    assert(x - q * y == m * (x / m - q * (y / m))) by (nonlinear_arith)
        requires x == m * (x / m) + x % m, y == m * (y / m) + y % m, x % m == 0, y % m == 0;
    lemma_mod_multiples_basic(x / m - q * (y / m), m);
    vstd::arithmetic::mul::lemma_mul_is_commutative(m, x / m - q * (y / m));
}

/// If `x - y` is a multiple of `m` and `0 <= y < m`, then `x % m == y`.
proof fn lemma_mod_sub_congruent(x: int, y: int, m: int)
    requires
        m > 0,
        0 <= y < m,
        (x - y) % m == 0,
    ensures
        x % m == y,
{
    lemma_fundamental_div_mod(x - y, m);
    let k = (x - y) / m;
    assert(x == k * m + y) by (nonlinear_arith)
        requires x - y == m * k + (x - y) % m, (x - y) % m == 0;
    lemma_fundamental_div_mod_converse_mod(x, m, k, y);
}

/// 97 is prime: a factorisation `r * k == 97` with `1 <= r < 97` has `r == 1`.
proof fn lemma_divisor_of_p(r: int, k: int)
    requires
        1 <= r < 97,
        k >= 0,
        r * k == 97,
    ensures
        r == 1,
{
    if r >= 2 {
        assert(k <= 48) by (nonlinear_arith) requires r >= 2, k >= 0, r * k == 97;
        let r8 = r as u8;
        let k8 = k as u8;
        assert(r8 as int == r && k8 as int == k);
        assert(!(2 <= r8 && r8 < 97 && k8 <= 48 && (r8 as u16) * (k8 as u16) == 97))
            by (bit_vector);
        assert((r8 as u16) * (k8 as u16) == r * k);
    }
}

/// One step of square-and-multiply keeps `acc * base^exp` unchanged modulo the prime.
proof fn lemma_pow_step(a0: int, b0: int, x0: nat, a1: int, b1: int, x1: nat)
    requires
        x0 > 0,
        x1 == x0 / 2,
        b1 == (b0 * b0) % 97,
        x0 % 2 == 1 ==> a1 == (a0 * b0) % 97,
        x0 % 2 != 1 ==> a1 == a0,
    ensures
        (a1 * pow(b1, x1)) % 97 == (a0 * pow(b0, x0)) % 97,
{
    // pow(b0, x0) == pow(b0, x0 % 2) * pow(b0 * b0, x0 / 2)
    lemma_pow_multiplies(b0, 2, x1);
    lemma_square_is_pow2(b0);
    lemma_pow_adds(b0, 2 * x1, (x0 % 2) as nat);
    assert(x0 == 2 * x1 + x0 % 2);
    // pow(b1, x1) is congruent to pow(b0 * b0, x1)
    lemma_pow_mod_noop(b0 * b0, x1, 97);
    let pb = pow(b0 * b0, x1);
    assert(pow(b1, x1) % 97 == pb % 97);
    if x0 % 2 == 1 {
        lemma_pow1(b0);
        assert(pow(b0, x0) == pb * b0);
        lemma_mul_mod_noop_general(a0 * b0, pb, 97);
        lemma_mul_mod_noop_general(a1, pow(b1, x1), 97);
        lemma_mod_twice(a0 * b0, 97);
        assert((a1 * pow(b1, x1)) % 97 == ((a0 * b0) * pb) % 97);
        assert((a0 * b0) * pb == a0 * (pb * b0)) by (nonlinear_arith);
    } else {
        lemma_pow0(b0);
        assert(pow(b0, x0) == pb * 1);
        lemma_mul_mod_noop_right(a0, pow(b1, x1), 97);
        lemma_mul_mod_noop_right(a0, pb, 97);
    }
}

impl F {
    /// Small prime modulus; something convenient for hand debugging.
    pub const P: u32 = 97;

    /// The representative lies in `[0, P)`; every element satisfies this.
    #[verifier::type_invariant]
    pub closed spec fn reduced(self) -> bool {
        self.value < 97
    }

    /// A reduced element has its representative in `[0, P)`.
    pub proof fn lemma_reduced(self)
        requires
            self.reduced(),
        ensures
            0 <= self.val() < modulus(),
    {
    }

    /// The canonical representative of the element. It lies in `[0, P)` for every element
    /// that code can hold (`lemma_reduced`, after `use_type_invariant`); functions that hand
    /// out elements inside collections state the bound in their contracts.
    pub closed spec fn val(self) -> int {
        self.value as int
    }

    /// Create a new field element reduced modulo P.
    pub fn new(x: u32) -> (r: F)
        ensures
            r.val() == x as int % modulus(),
    {
        F { value: x % 97 }
    }

    /// Return the canonical representative in [0, P).
    pub fn as_u32(self) -> (r: u32)
        ensures
            r == self.val(),
            r < Self::P,
    {
        proof {
            use_type_invariant(&self);
        }
        self.value
    }

    /// Add two field elements.
    pub fn add(self, other: F) -> (r: F)
        ensures
            r.val() == (self.val() + other.val()) % modulus(),
    {
        let mut s = self.value as u64 + other.value as u64;
        s %= 97;
        F::new(s as u32)
    }

    /// Subtract two field elements.
    pub fn sub(self, other: F) -> (r: F)
        ensures
            r.val() == (self.val() - other.val()) % modulus(),
    {
        proof {
            use_type_invariant(&self);
            use_type_invariant(&other);
        }
        let p = Self::P as i64;
        // Both representatives lie in [0, P), so the difference lies in (-P, P).
        let mut s = self.value as i64 - other.value as i64;
        if s < 0 {
            s += p;
        }
        proof {
            assert(0 <= s < 97);
            assert(s == (self.val() - other.val()) % modulus());
        }
        F::new(s as u32)
    }

    /// Compute multiplicative inverse using extended Euclidean algorithm.
    /// Zero has no inverse and is not accepted.
    pub fn inv(self) -> (r: F)
        requires
            self.val() != 0,
        ensures
            (self.val() * r.val()) % modulus() == 1,
            0 <= r.val() < modulus(),
    {
        proof {
            use_type_invariant(&self);
        }
        let a: u64 = self.value as u64;
        // Extended Euclidean algorithm for a * x + p * y = gcd(a, p) = 1.
        // The remainders stay non-negative; the Bezout coefficients alternate in sign.
        let mut t: i64 = 0;
        let mut new_t: i64 = 1;
        let mut r: u64 = Self::P as u64;
        let mut new_r: u64 = a;

        assert(t * new_t == 0);
        assert(r * abs(new_t as int) + new_r * abs(t as int) == 97) by (nonlinear_arith)
            requires r == 97, new_t == 1, t == 0;
        assert((new_t * a - new_r) % 97 == 0) by (nonlinear_arith)
            requires new_t == 1, new_r == a;
        assert((t * a - r) % 97 == 0) by (nonlinear_arith)
            requires t == 0, r == 97;
        while new_r != 0
            invariant
                1 <= a < 97,
                new_r < r <= 97,
                new_r <= a,
                r == 97 || r <= a,
                r == 97 ==> new_r == a,
                new_t != 0,
                t * new_t <= 0,
                -97 <= t <= 97,
                -97 <= new_t <= 97,
                r * abs(new_t as int) + new_r * abs(t as int) == 97,
                (t * a - r) % 97 == 0,
                (new_t * a - new_r) % 97 == 0,
            decreases new_r,
        {
            let q = r / new_r;
            proof {
                lemma_fundamental_div_mod(r as int, new_r as int);
                lemma_euclid_step(t as int, new_t as int, r as int, new_r as int, q as int);
                lemma_sub_multiple_mod(t * a - r, new_t * a - new_r, q as int, 97);
                assert((t - q * new_t) * a - (r - q * new_r) == (t * a - r) - q * (new_t * a - new_r))
                    by (nonlinear_arith);
            }
            let tmp_t = t - q as i64 * new_t;
            t = new_t;
            new_t = tmp_t;

            let tmp_r = r - q * new_r;
            r = new_r;
            new_r = tmp_r;
        }
        proof {
            assert(r * abs(new_t as int) == 97);
            lemma_divisor_of_p(r as int, abs(new_t as int));
            assert(r == 1);
        }
        let ghost t0 = t;
        if t < 0 {
            t += Self::P as i64;
        }
        proof {
            assert((t * a - 1) % 97 == 0) by {
                lemma_sub_multiple_mod(t0 * a - 1, 97, -(t - t0) / 97 * a, 97);
                assert(t * a - 1 == (t0 * a - 1) - (-(t - t0) / 97 * a) * 97) by (nonlinear_arith)
                    requires t == t0 || t == t0 + 97;
            }
            lemma_mul_mod_noop_right(a as int, t as int, 97);
            assert(a * t == t * a) by (nonlinear_arith);
            lemma_mod_sub_congruent(a * t, 1, 97);
        }
        F::new(t as u32)
    }

    /// Exponentiation by square-and-multiply: self^exp.
    pub fn pow(self, exp: u64) -> (r: F)
        ensures
            r.val() == pow(self.val(), exp as nat) % modulus(),
    {
        let mut exp = exp;
        let ghost e0 = exp;
        let mut base = self;
        let mut acc = F::new(1);
        proof {
            use_type_invariant(&self);
            lemma_pow0(base.val());
            assert(acc.val() * pow(base.val(), exp as nat) == pow(self.val(), e0 as nat));
        }
        while exp > 0
            invariant
                (acc.val() * pow(base.val(), exp as nat)) % 97 == pow(self.val(), e0 as nat) % 97,
            decreases exp,
        {
            let ghost a0 = acc.val();
            let ghost b0 = base.val();
            let ghost x0 = exp;
            proof {
                assert(exp & 1 == exp % 2) by (bit_vector);
                assert(exp >> 1 == exp / 2) by (bit_vector);
            }
            if exp & 1 == 1 {
                acc = acc.mul(base);
            }
            base = base.mul(base);
            exp >>= 1;
            proof {
                lemma_pow_step(a0, b0, x0 as nat, acc.val(), base.val(), exp as nat);
            }
        }
        proof {
            use_type_invariant(&acc);
            lemma_pow0(base.val());
            lemma_small_mod(acc.val() as nat, 97);
            assert(acc.val() * pow(base.val(), exp as nat) == acc.val());
        }
        acc
    }

    /// Multiply two field elements.
    pub fn mul(self, other: F) -> (r: F)
        ensures
            r.val() == (self.val() * other.val()) % modulus(),
    {
        proof {
            use_type_invariant(&self);
            use_type_invariant(&other);
            assert(self.value as u64 * other.value as u64 <= 96 * 96) by (nonlinear_arith)
                requires
                    self.value < 97,
                    other.value < 97,
            ;
        }
        let mut p = self.value as u64 * other.value as u64;
        p %= Self::P as u64;
        F::new(p as u32)
    }
}


/// The element with representative `v % P`.
pub closed spec fn from_int(v: int) -> F {
    F { value: (v % 97) as u32 }
}

/// `from_int(v)` is the element whose representative is `v` reduced modulo the prime.
pub broadcast proof fn lemma_from_int_val(v: int)
    ensures
        #[trigger] from_int(v).val() == v % modulus(),
{
}

/// Two field elements are equal exactly when their representatives are.
pub proof fn lemma_eq_iff_val(a: F, b: F)
    ensures
        (a == b) <==> (a.val() == b.val()),
{
}

impl std::ops::Add for F {
    type Output = F;

    fn add(self, rhs: F) -> (r: F) {
        F::add(self, rhs)
    }
}

impl vstd::std_specs::ops::AddSpecImpl for F {
    open spec fn obeys_add_spec() -> bool {
        true
    }

    open spec fn add_req(self, rhs: F) -> bool {
        true
    }

    open spec fn add_spec(self, rhs: F) -> F {
        from_int(self.val() + rhs.val())
    }
}


impl std::ops::Sub for F {
    type Output = F;

    fn sub(self, rhs: F) -> (r: F) {
        F::sub(self, rhs)
    }
}

impl vstd::std_specs::ops::SubSpecImpl for F {
    open spec fn obeys_sub_spec() -> bool {
        true
    }

    open spec fn sub_req(self, rhs: F) -> bool {
        true
    }

    open spec fn sub_spec(self, rhs: F) -> F {
        from_int(self.val() - rhs.val())
    }
}

impl std::ops::Mul for F {
    type Output = F;

    fn mul(self, rhs: F) -> (r: F) {
        F::mul(self, rhs)
    }
}

impl vstd::std_specs::ops::MulSpecImpl for F {
    open spec fn obeys_mul_spec() -> bool {
        true
    }

    open spec fn mul_req(self, rhs: F) -> bool {
        true
    }

    open spec fn mul_spec(self, rhs: F) -> F {
        from_int(self.val() * rhs.val())
    }
}

/// `q` is the representative of the quotient `a / b` in the field: `q * b` is congruent to `a`.
pub open spec fn is_quotient(q: int, a: int, b: int) -> bool {
    0 <= q < modulus() && (q * b) % modulus() == a % modulus()
}

/// The quotient `a / b` in the field, for `b` not divisible by the prime.
pub closed spec fn quotient(a: int, b: int) -> F {
    from_int(choose|q: int| is_quotient(q, a, b))
}

/// The quotient is unique: two representatives of `a / b` coincide.
proof fn lemma_quotient_unique(q1: int, q2: int, a: int, b: int, y: int)
    requires
        is_quotient(q1, a, b),
        is_quotient(q2, a, b),
        (b * y) % 97 == 1,
    ensures
        q1 == q2,
{
    // q ≡ q * (b * y) = (q * b) * y ≡ a * y, for both q1 and q2.
    assert forall|q: int| is_quotient(q, a, b) implies q == (a * y) % 97 by {
        lemma_mul_mod_noop_right(q, b * y, 97);
        lemma_small_mod(q as nat, 97);
        assert(q * (b * y) == (q * b) * y) by (nonlinear_arith);
        lemma_mul_mod_noop_left(q * b, y, 97);
        lemma_mul_mod_noop_left(a, y, 97);
    }
}

/// The extended Euclidean algorithm as a proof: from a state of the loop in `F::inv`,
/// the Bezout coefficient of `a` that it ends with.
proof fn lemma_euclid_run(a: int, t: int, nt: int, r: int, nr: int) -> (y: int)
    requires
        1 <= a < 97,
        0 <= nr < r <= 97,
        nr <= a,
        r == 97 || r <= a,
        r == 97 ==> nr == a,
        nt != 0,
        t * nt <= 0,
        -97 <= t <= 97,
        -97 <= nt <= 97,
        r * abs(nt) + nr * abs(t) == 97,
        (t * a - r) % 97 == 0,
        (nt * a - nr) % 97 == 0,
    ensures
        (y * a - 1) % 97 == 0,
    decreases nr,
{
    if nr == 0 {
        lemma_divisor_of_p(r, abs(nt));
        t
    } else {
        let q = r / nr;
        lemma_fundamental_div_mod(r, nr);
        lemma_euclid_step(t, nt, r, nr, q);
        lemma_sub_multiple_mod(t * a - r, nt * a - nr, q, 97);
        assert((t - q * nt) * a - (r - q * nr) == (t * a - r) - q * (nt * a - nr))
            by (nonlinear_arith);
        lemma_euclid_run(a, nt, t - q * nt, nr, r - q * nr)
    }
}

/// Every element that is nonzero in the field has an inverse.
pub proof fn lemma_inverse_exists(b: int) -> (y: int)
    requires
        b % modulus() != 0,
    ensures
        0 <= y < modulus(),
        (b * y) % modulus() == 1,
{
    let a = b % 97;
    assert((0 * a - 97) % 97 == 0);
    assert((1 * a - a) % 97 == 0);
    assert(abs(1) == 1 && abs(0) == 0);
    assert(97 * abs(1) + a * abs(0) == 97) by (nonlinear_arith)
        requires abs(1) == 1, abs(0) == 0;
    let t = lemma_euclid_run(a, 0, 1, 97, a);
    let y = t % 97;
    // a * y ≡ a * t ≡ 1, and b ≡ a
    lemma_mod_sub_congruent(t * a, 1, 97);
    lemma_mul_mod_noop_general(b, t, 97);
    lemma_mod_twice(b, 97);
    assert(t * a == a * t) by (nonlinear_arith);
    assert((b * y) % 97 == ((b % 97) * (t % 97)) % 97);
    assert((b * t) % 97 == ((b % 97) * (t % 97)) % 97);
    y
}

/// The quotient `a / b` is a quotient in the field: `(a / b) * b ≡ a`.
pub proof fn lemma_quotient(a: int, b: int)
    requires
        b % modulus() != 0,
    ensures
        is_quotient(quotient(a, b).val(), a, b),
{
    let y = lemma_inverse_exists(b);
    let q = (a * y) % 97;
    // q * b ≡ a * (y * b) ≡ a
    lemma_mul_mod_noop_left(a * y, b, 97);
    assert((a * y) * b == a * (b * y)) by (nonlinear_arith);
    lemma_mul_mod_noop_right(a, b * y, 97);
    assert(is_quotient(q, a, b));
    let c = choose|q: int| is_quotient(q, a, b);
    assert(is_quotient(c, a, b));
    lemma_small_mod(c as nat, 97);
}

impl std::ops::Div for F {
    type Output = F;

    fn div(self, rhs: F) -> (r: F) {
        let y = rhs.inv();
        let r = self.mul(y);
        proof {
            use_type_invariant(&self);
            let (a, b) = (self.val(), rhs.val());
            // r * b ≡ a * (y * b) ≡ a
            lemma_mul_mod_noop_left(a * y.val(), b, 97);
            assert((a * y.val()) * b == a * (b * y.val())) by (nonlinear_arith);
            lemma_mul_mod_noop_right(a, b * y.val(), 97);
            lemma_small_mod(a as nat, 97);
            assert(is_quotient(r.val(), a, b));
            let q = choose|q: int| is_quotient(q, a, b);
            lemma_quotient_unique(q, r.val(), a, b, y.val());
            lemma_small_mod(q as nat, 97);
        }
        r
    }
}

impl vstd::std_specs::ops::DivSpecImpl for F {
    open spec fn obeys_div_spec() -> bool {
        true
    }

    open spec fn div_req(self, rhs: F) -> bool {
        rhs.val() != 0
    }

    open spec fn div_spec(self, rhs: F) -> F {
        quotient(self.val(), rhs.val())
    }
}

impl std::ops::Neg for F {
    type Output = F;

    fn neg(self) -> (r: F) {
        F::new(0) - self
    }
}

impl vstd::std_specs::ops::NegSpecImpl for F {
    open spec fn obeys_neg_spec() -> bool {
        true
    }

    open spec fn neg_req(self) -> bool {
        true
    }

    open spec fn neg_spec(self) -> F {
        from_int(-self.val())
    }
}

impl From<u32> for F {
    fn from(x: u32) -> (r: F) {
        F::new(x)
    }
}

impl vstd::std_specs::convert::FromSpecImpl<u32> for F {
    open spec fn obeys_from_spec() -> bool {
        true
    }

    open spec fn from_spec(x: u32) -> F {
        from_int(x as int)
    }
}

} // verus!
