//! The deterministic generator that seeds initial particle positions.
use vstd::prelude::*;

verus! {

/// Multiplier of the generator's recurrence.
pub const LCG_MUL: u32 = 1664525;

/// Increment of the generator's recurrence.
pub const LCG_INC: u32 = 1013904223;

/// One step of the recurrence `s' = (1664525 * s + 1013904223) mod 2^32`.
pub open spec fn lcg_step(s: u32) -> u32 {
    ((s as int * LCG_MUL as int + LCG_INC as int) % 0x1_0000_0000) as u32
}

/// The state after `n` steps from `seed`.
pub open spec fn lcg_iter(seed: u32, n: nat) -> u32
    decreases n,
{
    if n == 0 {
        seed
    } else {
        lcg_step(lcg_iter(seed, (n - 1) as nat))
    }
}

/// Tiny deterministic linear congruential generator, so that seeded particle
/// layouts are reproducible.
pub struct Lcg {
    state: u32,
}

impl View for Lcg {
    type V = u32;

    /// The current state of the generator.
    closed spec fn view(&self) -> u32 {
        self.state
    }
}

impl Lcg {
    /// A generator whose state is `seed`.
    pub fn new(seed: u32) -> (g: Self)
        ensures
            g@ == seed,
    {
        Self { state: seed }
    }

    /// Advances the state one step and returns the new state.
    pub fn next_u32(&mut self) -> (r: u32)
        ensures
            r == lcg_step(old(self)@),
            final(self)@ == r,
    {
        let prod = self.state.wrapping_mul(LCG_MUL);
        proof {
            lemma_wrapping_step(self.state, prod);
        }
        self.state = prod.wrapping_add(LCG_INC);
        self.state
    }
}

/// Reducing the product modulo 2^32 before adding the increment does not
/// change the result modulo 2^32.
proof fn lemma_wrapping_step(s: u32, prod: u32)
    requires
        prod == (s as nat * LCG_MUL as nat) % 0x1_0000_0000,
    ensures
        vstd::wrapping::u32_specs::wrapping_add(prod, LCG_INC) == lcg_step(s),
{
    let m: int = 0x1_0000_0000;
    let x: int = s as int * LCG_MUL as int;
    let b: int = prod as int + LCG_INC as int;
    vstd::arithmetic::div_mod::lemma_add_mod_noop(x, LCG_INC as int, m);
    vstd::arithmetic::div_mod::lemma_small_mod(LCG_INC as nat, m as nat);
    assert((x + LCG_INC as int) % m == b % m);
    if b >= m {
        vstd::arithmetic::div_mod::lemma_mod_sub_multiples_vanish(b, m);
        vstd::arithmetic::div_mod::lemma_small_mod((b - m) as nat, m as nat);
    } else {
        vstd::arithmetic::div_mod::lemma_small_mod(b as nat, m as nat);
    }
}

/// The multiplicative inverse of [`LCG_MUL`] modulo 2^32.
pub open spec fn lcg_mul_inverse() -> int {
    4276115653
}

/// Undoes one step: the state whose step is `v`.
pub open spec fn lcg_unstep(v: u32) -> int {
    ((v as int - LCG_INC as int) % 0x1_0000_0000 * lcg_mul_inverse()) % 0x1_0000_0000
}

/// One step of the generator can be undone, so it never maps two states to
/// one: a stream is determined by its seed, and different seeds give
/// different first outputs (hence different streams).
pub proof fn lemma_lcg_step_injective(x: u32, y: u32)
    ensures
        lcg_unstep(lcg_step(x)) == x,
        lcg_step(x) == lcg_step(y) ==> x == y,
{
    lemma_lcg_unstep(x);
    lemma_lcg_unstep(y);
}

/// `lcg_unstep` inverts `lcg_step`.
proof fn lemma_lcg_unstep(x: u32)
    ensures
        lcg_unstep(lcg_step(x)) == x,
{
    let m: int = 0x1_0000_0000;
    let a: int = LCG_MUL as int;
    let c: int = LCG_INC as int;
    let inv: int = lcg_mul_inverse();
    let xa: int = x as int * a;
    vstd::arithmetic::div_mod::lemma_mod_bound(xa + c, m);
    assert(lcg_step(x) as int == (xa + c) % m);
    vstd::arithmetic::div_mod::lemma_sub_mod_noop(xa + c, c, m);
    vstd::arithmetic::div_mod::lemma_small_mod(c as nat, m as nat);
    assert((lcg_step(x) as int - c) % m == xa % m);
    vstd::arithmetic::div_mod::lemma_mul_mod_noop_left(xa, inv, m);
    let k: int = 1657219;
    assert(xa * inv == m * (x as int * k) + x as int) by (nonlinear_arith)
        requires
            xa == x as int * a,
            a == 1664525,
            inv == 4276115653,
            k == 1657219,
            m == 0x1_0000_0000,
    ;
    vstd::arithmetic::div_mod::lemma_mod_multiples_vanish(x as int * k, x as int, m);
    vstd::arithmetic::div_mod::lemma_small_mod(x as nat, m as nat);
}

/// The states a generator passes through depend on its seed alone, and on
/// nothing else: after `n` steps from `seed` the state is `lcg_iter(seed, n)`
/// (each call of `next_u32` takes one step and returns the new state), and
/// two seeds whose states ever coincide after the same number of steps are
/// the same seed.
pub proof fn lemma_lcg_reproducible(a: u32, b: u32, n: nat)
    ensures
        lcg_iter(a, n + 1) == lcg_step(lcg_iter(a, n)),
        lcg_iter(a, 0) == a,
        lcg_iter(a, n) == lcg_iter(b, n) ==> a == b,
    decreases n,
{
    if n > 0 {
        lemma_lcg_reproducible(a, b, (n - 1) as nat);
        lemma_lcg_step_injective(lcg_iter(a, (n - 1) as nat), lcg_iter(b, (n - 1) as nat));
    }
}

/// `1 + a + a^2 + ... + a^(n-1)` for the multiplier `a`.
spec fn lcg_geo(n: nat) -> int
    decreases n,
{
    if n == 0 {
        0
    } else {
        1 + LCG_MUL as int * lcg_geo((n - 1) as nat)
    }
}

/// `a^n` for the multiplier `a`.
spec fn lcg_pow(n: nat) -> int
    decreases n,
{
    if n == 0 {
        1
    } else {
        LCG_MUL as int * lcg_pow((n - 1) as nat)
    }
}

/// `2^k`.
spec fn two_pow(k: nat) -> int
    decreases k,
{
    if k == 0 {
        1
    } else {
        2 * two_pow((k - 1) as nat)
    }
}

/// The odd number by which `n` steps from `s` shift the state, per unit of
/// `lcg_geo(n)`.
spec fn lcg_shift(s: u32) -> int {
    (LCG_MUL as int - 1) * s as int + LCG_INC as int
}

/// Closed form: `n` steps from `s` reach `s + (1 + a + ... + a^(n-1)) * t`
/// modulo 2^32, with `t = (a - 1) s + c`.
proof fn lemma_lcg_closed_form(s: u32, n: nat)
    ensures
        lcg_iter(s, n) as int == (s as int + lcg_geo(n) * lcg_shift(s)) % 0x1_0000_0000,
    decreases n,
{
    let m: int = 0x1_0000_0000;
    if n == 0 {
        vstd::arithmetic::div_mod::lemma_small_mod(s as nat, m as nat);
    } else {
        lemma_lcg_closed_form(s, (n - 1) as nat);
        let g = lcg_geo((n - 1) as nat);
        let t = lcg_shift(s);
        let y = s as int + g * t;
        let x = lcg_iter(s, (n - 1) as nat) as int;
        let a = LCG_MUL as int;
        let c = LCG_INC as int;
        assert(x == y % m);
        vstd::arithmetic::div_mod::lemma_mul_mod_noop_left(y, a, m);
        vstd::arithmetic::div_mod::lemma_add_mod_noop(x * a, c, m);
        vstd::arithmetic::div_mod::lemma_add_mod_noop(y * a, c, m);
        vstd::arithmetic::div_mod::lemma_mod_twice(y * a, m);
        vstd::arithmetic::div_mod::lemma_small_mod(c as nat, m as nat);
        assert(y * a + c == s as int + (1 + a * g) * t) by (nonlinear_arith)
            requires
                y == s as int + g * t,
                t == (a - 1) * s as int + c,
        ;
        assert(lcg_iter(s, n) as int == (x * a + c) % m);
    }
}

/// The sum of powers has the parity of its number of terms.
proof fn lemma_geo_parity(n: nat)
    ensures
        lcg_geo(n) % 2 == n % 2,
    decreases n,
{
    if n > 0 {
        lemma_geo_parity((n - 1) as nat);
        let g = lcg_geo((n - 1) as nat);
        assert((1 + 1664525 * g) % 2 == (n as int) % 2) by (nonlinear_arith)
            requires
                g % 2 == (n - 1) % 2,
                n >= 1,
        ;
    }
}

/// Every power of the multiplier is one more than a multiple of four.
proof fn lemma_pow_mod_four(n: nat)
    ensures
        lcg_pow(n) % 4 == 1,
        lcg_pow(n) > 0,
    decreases n,
{
    if n > 0 {
        lemma_pow_mod_four((n - 1) as nat);
        let p = lcg_pow((n - 1) as nat);
        assert((1664525 * p) % 4 == 1 && 1664525 * p > 0) by (nonlinear_arith)
            requires
                p % 4 == 1,
                p > 0,
        ;
    }
}

/// Splitting a sum of powers: `S(m + k) = S(m) + a^m S(k)`.
proof fn lemma_geo_split(m: nat, k: nat)
    ensures
        lcg_geo(m + k) == lcg_geo(m) + lcg_pow(m) * lcg_geo(k),
    decreases m,
{
    if m > 0 {
        lemma_geo_split((m - 1) as nat, k);
        let g = lcg_geo((m - 1) as nat);
        let p = lcg_pow((m - 1) as nat);
        let h = lcg_geo(k);
        assert(lcg_geo(m + k) == 1 + 1664525 * lcg_geo((m - 1 + k) as nat));
        assert(1 + 1664525 * (g + p * h) == (1 + 1664525 * g) + (1664525 * p) * h)
            by (nonlinear_arith);
    }
}

/// The number of twos dividing `S(d)` is the number dividing `d`: for
/// `d >= 1`, `d = 2^k u` and `S(d) = 2^k w` with `u` and `w` odd.
proof fn lemma_geo_twos(d: nat) -> (r: (nat, int, int))
    requires
        d >= 1,
    ensures
        d == two_pow(r.0) * r.1,
        lcg_geo(d) == two_pow(r.0) * r.2,
        r.1 % 2 == 1,
        r.2 % 2 == 1,
    decreases d,
{
    if d % 2 == 1 {
        lemma_geo_parity(d);
        (0, d as int, lcg_geo(d))
    } else {
        let m: nat = d / 2;
        let (k, u, w) = lemma_geo_twos(m);
        lemma_geo_split(m, m);
        lemma_pow_mod_four(m);
        let p = lcg_pow(m);
        let v = (p + 1) / 2;
        assert(1 + p == 2 * v && v % 2 == 1) by (nonlinear_arith)
            requires
                p % 4 == 1,
                v == (p + 1) / 2,
        ;
        assert(lcg_geo(d) == two_pow(k) * w * (1 + p)) by (nonlinear_arith)
            requires
                lcg_geo(d) == lcg_geo(m) + p * lcg_geo(m),
                lcg_geo(m) == two_pow(k) * w,
        ;
        assert(two_pow(k) * w * (2 * v) == 2 * two_pow(k) * (w * v)) by (nonlinear_arith);
        assert(d == 2 * two_pow(k) * u) by (nonlinear_arith)
            requires
                d == 2 * m,
                m == two_pow(k) * u,
        ;
        lemma_odd_mul(w, v);
        assert(two_pow(k + 1) == 2 * two_pow(k));
        (k + 1, u, w * v)
    }
}

/// Powers of two grow: `2^j * 2^k = 2^(j + k)`, and `2^k >= 1`.
proof fn lemma_two_pow_add(j: nat, k: nat)
    ensures
        two_pow(j) * two_pow(k) == two_pow(j + k),
        two_pow(k) >= 1,
    decreases j,
{
    if j > 0 {
        lemma_two_pow_add((j - 1) as nat, k);
        assert(2 * two_pow((j - 1) as nat) * two_pow(k) == 2 * (two_pow((j - 1) as nat) * two_pow(
            k,
        ))) by (nonlinear_arith);
        assert(two_pow(j + k) == 2 * two_pow((j - 1 + k) as nat));
    } else {
        lemma_two_pow_pos(k);
    }
}

/// The product of two odd numbers is odd.
proof fn lemma_odd_mul(x: int, y: int)
    requires
        x % 2 == 1,
        y % 2 == 1,
    ensures
        (x * y) % 2 == 1,
{
    vstd::arithmetic::div_mod::lemma_fundamental_div_mod(x, 2);
    vstd::arithmetic::div_mod::lemma_fundamental_div_mod(y, 2);
    let a = x / 2;
    let b = y / 2;
    assert(x * y == 2 * (2 * a * b + a + b) + 1) by (nonlinear_arith)
        requires
            x == 2 * a + 1,
            y == 2 * b + 1,
    ;
    vstd::arithmetic::div_mod::lemma_mod_multiples_vanish(2 * a * b + a + b, 1, 2);
}

proof fn lemma_two_pow_32()
    ensures
        two_pow(32) == 0x1_0000_0000,
        two_pow(33) == 0x2_0000_0000,
{
    reveal_with_fuel(two_pow, 34);
}

proof fn lemma_two_pow_pos(k: nat)
    ensures
        two_pow(k) >= 1,
    decreases k,
{
    if k > 0 {
        lemma_two_pow_pos((k - 1) as nat);
    }
}

/// `2^k` times an odd number is a multiple of 2^32 only when `k >= 32`.
proof fn lemma_low_twos_not_multiple(k: nat, o: int)
    requires
        k < 32,
        o % 2 == 1,
    ensures
        (two_pow(k) * o) % 0x1_0000_0000 != 0,
{
    let m: int = 0x1_0000_0000;
    let j: nat = (32 - k) as nat;
    lemma_two_pow_add(k, j);
    lemma_two_pow_32();
    let pk = two_pow(k);
    let pj = two_pow(j);
    lemma_two_pow_add((j - 1) as nat, 0);
    assert(pj == 2 * two_pow((j - 1) as nat));
    if (pk * o) % m == 0 {
        vstd::arithmetic::div_mod::lemma_fundamental_div_mod(pk * o, m);
        let q = (pk * o) / m;
        assert(pk * o == pk * (pj * q)) by (nonlinear_arith)
            requires
                pk * o == m * q,
                m == pk * pj,
        ;
        vstd::arithmetic::mul::lemma_mul_equality_converse(pk, o, pj * q);
        let z = two_pow((j - 1) as nat) * q;
        assert(pj * q == 2 * z) by (nonlinear_arith)
            requires
                pj == 2 * two_pow((j - 1) as nat),
                z == two_pow((j - 1) as nat) * q,
        ;
        vstd::arithmetic::div_mod::lemma_mod_multiples_vanish(z, 0, 2);
    }
}

/// Stepping `i + d` times is stepping `i` times and then `d` times.
proof fn lemma_lcg_iter_add(s: u32, i: nat, d: nat)
    ensures
        lcg_iter(s, i + d) == lcg_iter(lcg_iter(s, i), d),
    decreases d,
{
    if d > 0 {
        lemma_lcg_iter_add(s, i, (d - 1) as nat);
        assert(lcg_iter(s, i + d) == lcg_step(lcg_iter(s, (i + d - 1) as nat)));
    }
}

/// No state recurs in fewer than 2^32 steps.
proof fn lemma_lcg_no_early_return(s: u32, d: nat)
    requires
        0 < d < 0x1_0000_0000,
    ensures
        lcg_iter(s, d) != s,
{
    let m: int = 0x1_0000_0000;
    lemma_lcg_closed_form(s, d);
    let (k, u, w) = lemma_geo_twos(d);
    let t = lcg_shift(s);
    let g = lcg_geo(d);
    lemma_two_pow_pos(k);
    if k >= 32 {
        lemma_two_pow_add(32, (k - 32) as nat);
        lemma_two_pow_pos((k - 32) as nat);
        lemma_two_pow_32();
        assert(two_pow(k) >= m) by (nonlinear_arith)
            requires
                two_pow(k) == m * two_pow((k - 32) as nat),
                two_pow((k - 32) as nat) >= 1,
                m > 0,
        ;
        assert(d >= two_pow(k)) by (nonlinear_arith)
            requires
                d == two_pow(k) * u,
                u % 2 == 1,
                two_pow(k) >= 1,
                d > 0,
        ;
    }
    assert(t % 2 == 1) by (nonlinear_arith)
        requires
            t == 1664524 * s as int + 1013904223,
    ;
    lemma_odd_mul(w, t);
    assert(g * t == two_pow(k) * (w * t)) by (nonlinear_arith)
        requires
            g == two_pow(k) * w,
    ;
    lemma_low_twos_not_multiple(k, w * t);
    if lcg_iter(s, d) == s {
        vstd::arithmetic::div_mod::lemma_sub_mod_noop(s as int + g * t, s as int, m);
        vstd::arithmetic::div_mod::lemma_small_mod(s as nat, m as nat);
        assert((s as int + g * t - s as int) % m == 0);
        assert(s as int + g * t - s as int == g * t);
    }
}

/// Every state recurs after exactly 2^32 steps.
proof fn lemma_lcg_returns(s: u32)
    ensures
        lcg_iter(s, 0x1_0000_0000) == s,
{
    let m: int = 0x1_0000_0000;
    lemma_lcg_closed_form(s, 0x1_0000_0000);
    let (k, u, w) = lemma_geo_twos(0x1_0000_0000);
    let t = lcg_shift(s);
    let g = lcg_geo(0x1_0000_0000);
    // 2^32 = 2^k u with u odd forces k = 32.
    lemma_two_pow_pos(k);
    lemma_two_pow_32();
    if k < 32 {
        lemma_two_pow_add(k, (32 - k) as nat);
        let pj = two_pow((32 - k) as nat);
        lemma_two_pow_pos((31 - k) as nat);
        assert(pj == 2 * two_pow((31 - k) as nat));
        vstd::arithmetic::mul::lemma_mul_equality_converse(two_pow(k), u, pj);
        assert(false) by (nonlinear_arith)
            requires
                u == pj,
                pj == 2 * two_pow((31 - k) as nat),
                u % 2 == 1,
        ;
    } else if k > 32 {
        lemma_two_pow_add(33, (k - 33) as nat);
        lemma_two_pow_pos((k - 33) as nat);
        lemma_two_pow_32();
        assert(false) by (nonlinear_arith)
            requires
                m == two_pow(k) * u,
                two_pow(k) == 2 * m * two_pow((k - 33) as nat),
                two_pow((k - 33) as nat) >= 1,
                u % 2 == 1,
                m > 0,
        ;
    }
    assert(g * t == m * (w * t)) by (nonlinear_arith)
        requires
            g == two_pow(k) * w,
            two_pow(k) == m,
    ;
    vstd::arithmetic::div_mod::lemma_mod_multiples_vanish(w * t, s as int, m);
    vstd::arithmetic::div_mod::lemma_small_mod(s as nat, m as nat);
}

/// Full period: from any seed the generator passes through all 2^32 states
/// before repeating one. The first 2^32 states are pairwise distinct, and
/// the sequence repeats with period exactly 2^32.
pub proof fn lemma_lcg_full_period(seed: u32, i: nat, j: nat)
    ensures
        i < j < 0x1_0000_0000 ==> lcg_iter(seed, i) != lcg_iter(seed, j),
        lcg_iter(seed, i + 0x1_0000_0000) == lcg_iter(seed, i),
{
    lemma_lcg_iter_add(seed, i, 0x1_0000_0000);
    lemma_lcg_returns(lcg_iter(seed, i));
    if i < j < 0x1_0000_0000 {
        lemma_lcg_iter_add(seed, i, (j - i) as nat);
        lemma_lcg_no_early_return(lcg_iter(seed, i), (j - i) as nat);
    }
}

} // verus!
