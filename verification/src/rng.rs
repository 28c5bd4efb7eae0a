//! SplitMix64 seeding, the xoshiro256++ generator, index mapping and bulk fills.
use vstd::prelude::*;
use vstd::bits::lemma_u128_shr_is_div;
use vstd::arithmetic::power2::{pow2, lemma2_to64_rest};

verus! {

/// SplitMix64 increment (the golden ratio in 64-bit fixed point).
pub const GOLDEN_GAMMA: u64 = 0x9E37_79B9_7F4A_7C15;

/// The SplitMix64 finaliser as a mathematical function.
pub open spec fn spec_splitmix64(z: u64) -> u64 {
    let a = z.wrapping_add(GOLDEN_GAMMA);
    let b = (a ^ (a >> 30u64)).wrapping_mul(0xBF58_476D_1CE4_E5B9u64);
    let c = (b ^ (b >> 27u64)).wrapping_mul(0x94D0_49BB_1331_11EBu64);
    c ^ (c >> 31u64)
}

/// A stream seed: the base seed mixed with a scrambled stream identifier.
pub open spec fn spec_stream_seed(base: u64, stream: u64) -> u64 {
    spec_splitmix64(base ^ stream.wrapping_mul(GOLDEN_GAMMA))
}

/// Multiplying by `c` modulo 2^64 is undone by `inv` when `c * inv` is one
/// more than `k` times 2^64; so products by `c` of different words differ.
proof fn lemma_wrapping_mul_cancels(a: u64, b: u64, c: u64, inv: u64, k: int)
    requires
        a.wrapping_mul(c) == b.wrapping_mul(c),
        c as int * inv as int == 1 + k * 0x1_0000_0000_0000_0000int,
    ensures
        a == b,
{
    let m: int = 0x1_0000_0000_0000_0000int;
    assert forall|x: u64| #[trigger] ((x as int * c as int) % m * inv as int) % m == x as int by {
        vstd::arithmetic::div_mod::lemma_mul_mod_noop_left(x as int * c as int, inv as int, m);
        assert((x as int * c as int) * inv as int == m * (x as int * k) + x as int) by (nonlinear_arith)
            requires
                c as int * inv as int == 1 + k * m,
        ;
        vstd::arithmetic::div_mod::lemma_mod_multiples_vanish(x as int * k, x as int, m);
        vstd::arithmetic::div_mod::lemma_small_mod(x as nat, m as nat);
    }
    assert((a as int * c as int) % m == (b as int * c as int) % m);
    assert(((a as int * c as int) % m * inv as int) % m == a as int);
    assert(((b as int * c as int) % m * inv as int) % m == b as int);
}

/// The SplitMix64 finaliser is one to one: different words give different
/// outputs.
pub proof fn lemma_splitmix64_injective(a: u64, b: u64)
    requires
        spec_splitmix64(a) == spec_splitmix64(b),
    ensures
        a == b,
{
    let a1 = a.wrapping_add(GOLDEN_GAMMA);
    let b1 = b.wrapping_add(GOLDEN_GAMMA);
    let a2 = a1 ^ (a1 >> 30u64);
    let b2 = b1 ^ (b1 >> 30u64);
    let a3 = a2.wrapping_mul(0xBF58_476D_1CE4_E5B9u64);
    let b3 = b2.wrapping_mul(0xBF58_476D_1CE4_E5B9u64);
    let a4 = a3 ^ (a3 >> 27u64);
    let b4 = b3 ^ (b3 >> 27u64);
    let a5 = a4.wrapping_mul(0x94D0_49BB_1331_11EBu64);
    let b5 = b4.wrapping_mul(0x94D0_49BB_1331_11EBu64);
    assert(a5 ^ (a5 >> 31u64) == b5 ^ (b5 >> 31u64) ==> a5 == b5) by (bit_vector);
    lemma_wrapping_mul_cancels(a4, b4, 0x94D0_49BB_1331_11EBu64, 0x3196_42B2_D24D_8EC3u64, 2077064247507883091int);
    assert(a4 == b4 ==> a3 == b3) by (bit_vector)
        requires
            a4 == a3 ^ (a3 >> 27u64),
            b4 == b3 ^ (b3 >> 27u64),
    ;
    lemma_wrapping_mul_cancels(a2, b2, 0xBF58_476D_1CE4_E5B9u64, 0x96DE_1B17_3F11_9089u64, 8125545580553827436int);
    assert(a2 == b2 ==> a1 == b1) by (bit_vector)
        requires
            a2 == a1 ^ (a1 >> 30u64),
            b2 == b1 ^ (b1 >> 30u64),
    ;
}

/// Different stream identifiers under one base seed give different seeds.
pub proof fn lemma_stream_seeds_distinct(base: u64, s1: u64, s2: u64)
    requires
        s1 != s2,
    ensures
        spec_stream_seed(base, s1) != spec_stream_seed(base, s2),
{
    if spec_stream_seed(base, s1) == spec_stream_seed(base, s2) {
        lemma_splitmix64_injective(base ^ s1.wrapping_mul(GOLDEN_GAMMA), base ^ s2.wrapping_mul(GOLDEN_GAMMA));
        let p1 = s1.wrapping_mul(GOLDEN_GAMMA);
        let p2 = s2.wrapping_mul(GOLDEN_GAMMA);
        assert(base ^ p1 == base ^ p2 ==> p1 == p2) by (bit_vector);
        lemma_wrapping_mul_cancels(s1, s2, GOLDEN_GAMMA, 0xF1DE_83E1_9937_733Du64, 10771413168148108919int);
    }
}

/// SplitMix64 mixer used to derive independent streams from a base seed.
pub fn mix_seed(z: u64) -> (r: u64)
    ensures
        r == spec_splitmix64(z),
{
    let mut z = z.wrapping_add(GOLDEN_GAMMA);
    z = (z ^ (z >> 30)).wrapping_mul(0xBF58_476D_1CE4_E5B9);
    z = (z ^ (z >> 27)).wrapping_mul(0x94D0_49BB_1331_11EB);
    z ^ (z >> 31)
}

/// Combine a base seed with a stream identifier.
pub fn stream_seed(base: u64, stream: u64) -> (r: u64)
    ensures
        r == spec_stream_seed(base, stream),
{
    mix_seed(base ^ stream.wrapping_mul(GOLDEN_GAMMA))
}

/// The seeding mixer of the generator (the same SplitMix64 step).
fn splitmix64(z: u64) -> (r: u64)
    ensures
        r == spec_splitmix64(z),
{
    let mut z = z.wrapping_add(GOLDEN_GAMMA);
    z = (z ^ (z >> 30)).wrapping_mul(0xBF58_476D_1CE4_E5B9);
    z = (z ^ (z >> 27)).wrapping_mul(0x94D0_49BB_1331_11EB);
    z ^ (z >> 31)
}

/// The four state words of the generator.
pub type State = (u64, u64, u64, u64);

pub open spec fn zero_state() -> State {
    (0u64, 0u64, 0u64, 0u64)
}

pub open spec fn spec_rotl23(x: u64) -> u64 {
    (x << 23u64) | (x >> 41u64)
}

pub open spec fn spec_rotl45(x: u64) -> u64 {
    (x << 45u64) | (x >> 19u64)
}

/// The xoshiro256++ output function.
pub open spec fn spec_output(s: State) -> u64 {
    spec_rotl23(s.0.wrapping_add(s.3)).wrapping_add(s.0)
}

/// The xoshiro256++ state transition.
pub open spec fn spec_advance(s: State) -> State {
    let t = s.1 << 17u64;
    let s2 = s.2 ^ s.0;
    let s3 = s.3 ^ s.1;
    let s1 = s.1 ^ s2;
    let s0 = s.0 ^ s3;
    (s0, s1, s2 ^ t, spec_rotl45(s3))
}

/// One step of xoshiro256++ on the words (s0, s1, s2, s3): the new words are
/// s0^s1^s3, s0^s1^s2, s0^s2^(s1 << 17) and (s1^s3) rotated left by 45.
pub proof fn lemma_advance_words(s: State)
    ensures
        spec_advance(s).0 == s.0 ^ s.1 ^ s.3,
        spec_advance(s).1 == s.0 ^ s.1 ^ s.2,
        spec_advance(s).2 == s.0 ^ s.2 ^ (s.1 << 17u64),
        spec_advance(s).3 == ((s.1 ^ s.3) << 45u64) | ((s.1 ^ s.3) >> 19u64),
{
    let (a, b, c, d) = s;
    assert(a ^ (d ^ b) == a ^ b ^ d) by (bit_vector);
    assert(b ^ (c ^ a) == a ^ b ^ c) by (bit_vector);
    assert((c ^ a) ^ (b << 17u64) == a ^ c ^ (b << 17u64)) by (bit_vector);
    assert(d ^ b == b ^ d) by (bit_vector);
}

/// The state after `n` transitions.
pub open spec fn spec_advance_n(s: State, n: nat) -> State
    decreases n,
{
    if n == 0 {
        s
    } else {
        spec_advance(spec_advance_n(s, (n - 1) as nat))
    }
}

/// The `n`-th output (counting from zero) of a generator started in `s`.
pub open spec fn spec_nth_output(s: State, n: nat) -> u64 {
    spec_output(spec_advance_n(s, n))
}

/// The state that `from_seed` derives: four chained SplitMix64 draws, with the
/// all-zero fixed point replaced.
pub open spec fn spec_seed_state(seed: u64) -> State {
    let a = spec_splitmix64(seed);
    let b = spec_splitmix64(a);
    let c = spec_splitmix64(b);
    let d = spec_splitmix64(c);
    if a == 0 && b == 0 && c == 0 && d == 0 {
        (1u64, 0u64, 0u64, 0u64)
    } else {
        (a, b, c, d)
    }
}

/// The words of the xoshiro256 jump polynomial.
pub open spec fn spec_jump_word(w: int) -> u64 {
    if w == 0 {
        0x180E_C6D3_3CFD_0ABAu64
    } else if w == 1 {
        0xD5A6_1266_F0C9_392Cu64
    } else if w == 2 {
        0xA958_2618_E03F_C2AAu64
    } else {
        0x39AB_DC45_29B1_66C2u64
    }
}

/// Bit `k` (0..256) of the jump polynomial.
pub open spec fn spec_jump_bit(k: nat) -> bool {
    (spec_jump_word(k as int / 64) & (1u64 << ((k % 64) as u64))) != 0
}

pub open spec fn spec_xor_state(a: State, b: State) -> State {
    (a.0 ^ b.0, a.1 ^ b.1, a.2 ^ b.2, a.3 ^ b.3)
}

/// The jump accumulator after the first `k` polynomial bits: the xor of the
/// states `advance_n(s, j)` over the set bits `j < k`.
pub open spec fn spec_jump_acc(s: State, k: nat) -> State
    decreases k,
{
    if k == 0 {
        zero_state()
    } else {
        let prev = spec_jump_acc(s, (k - 1) as nat);
        if spec_jump_bit((k - 1) as nat) {
            spec_xor_state(prev, spec_advance_n(s, (k - 1) as nat))
        } else {
            prev
        }
    }
}

/// The state that `jump` installs.
pub open spec fn spec_jump(s: State) -> State {
    spec_jump_acc(s, 256)
}

/// `n` is a power of two (and not zero).
pub open spec fn spec_is_pow2(n: usize) -> bool {
    n > 0 && n & ((n - 1) as usize) == 0
}

/// The index in `0..n` that a draw `x` maps to: masking for powers of two,
/// Lemire's high multiply otherwise, `0` when `n <= 1`.
pub open spec fn spec_bounded_index(x: u64, n: usize) -> usize {
    if n <= 1 {
        0
    } else if spec_is_pow2(n) {
        (x as usize) & ((n - 1) as usize)
    } else {
        ((((x as u128) * (n as u128)) as u128) >> 64u128) as usize
    }
}

/// A state of all zeros is the only fixed point: no other state reaches it.
pub proof fn lemma_advance_keeps_nonzero(s: State)
    requires
        s != zero_state(),
    ensures
        spec_advance(s) != zero_state(),
{
    let (a, b, c, d) = s;
    assert((a ^ (d ^ b)) == 0u64 && (b ^ (c ^ a)) == 0u64 && ((c ^ a) ^ (b << 17u64)) == 0u64
        && (((d ^ b) << 45u64) | ((d ^ b) >> 19u64)) == 0u64 ==> (a == 0u64 && b == 0u64 && c
        == 0u64 && d == 0u64)) by (bit_vector);
}

/// Every state reachable from a nonzero state is nonzero.
pub proof fn lemma_advance_n_keeps_nonzero(s: State, n: nat)
    requires
        s != zero_state(),
    ensures
        spec_advance_n(s, n) != zero_state(),
    decreases n,
{
    if n > 0 {
        lemma_advance_n_keeps_nonzero(s, (n - 1) as nat);
        lemma_advance_keeps_nonzero(spec_advance_n(s, (n - 1) as nat));
    }
}

/// A seeded generator never reaches the all-zero state, however many
/// draws it makes.
pub proof fn lemma_seeded_stream_never_zero(seed: u64, n: nat)
    ensures
        spec_seed_state(seed) != zero_state(),
        spec_advance_n(spec_seed_state(seed), n) != zero_state(),
{
    lemma_advance_n_keeps_nonzero(spec_seed_state(seed), n);
}

pub proof fn lemma_advance_n_step(s: State, n: nat)
    ensures
        spec_advance_n(spec_advance(s), n) == spec_advance_n(s, n + 1),
    decreases n,
{
    if n > 0 {
        lemma_advance_n_step(s, (n - 1) as nat);
        assert(spec_advance_n(s, n + 1) == spec_advance(spec_advance_n(s, n)));
    } else {
        assert(spec_advance_n(s, 1) == spec_advance(spec_advance_n(s, 0)));
    }
}

proof fn lemma_wide_product_fits(x: u64, n: usize)
    ensures
        (x as int) * (n as int) <= u128::MAX,
{
    assert((x as int) * (n as int) <= u128::MAX) by (nonlinear_arith)
        requires
            0 <= x <= 0xffff_ffff_ffff_ffffu64,
            0 <= n <= 0xffff_ffff_ffff_ffffu64,
    ;
}

/// Draws from `index_of` agree with the spec and stay below `n`.
pub proof fn lemma_bounded_index_in_range(x: u64, n: usize)
    requires
        n > 0,
    ensures
        spec_bounded_index(x, n) < n,
{
    if n > 1 {
        if spec_is_pow2(n) {
            let m = (n - 1) as usize;
            let xu = x as usize;
            assert(xu & m <= m) by (bit_vector);
        } else {
            lemma_wide_product_fits(x, n);
            let p: u128 = ((x as u128) * (n as u128)) as u128;
            lemma_u128_shr_is_div(p, 64u128);
            lemma2_to64_rest();
            assert(x < pow2(64));
            assert((p as int / (pow2(64) as int)) < (n as int)) by (nonlinear_arith)
                requires
                    p == x as int * n as int,
                    0 <= x < pow2(64),
                    n > 0,
            {
                assert((p as int) < (pow2(64) as int) * (n as int));
            }
        }
    }
}

/// Away from powers of two a draw is mapped by Lemire's multiply: the
/// index is the integer part of `x * n / 2^64`, so the draw's range is cut
/// into `n` runs of nearly equal length, one per index.
pub proof fn lemma_bounded_index_is_scaled_draw(x: u64, n: usize)
    requires
        n > 1,
        !spec_is_pow2(n),
    ensures
        spec_bounded_index(x, n) as int == (x as int * n as int) / 0x1_0000_0000_0000_0000int,
{
    lemma_wide_product_fits(x, n);
    let p: u128 = ((x as u128) * (n as u128)) as u128;
    lemma_u128_shr_is_div(p, 64u128);
    lemma2_to64_rest();
    lemma_bounded_index_in_range(x, n);
    assert(pow2(64) == 0x1_0000_0000_0000_0000int);
    assert(p as int == x as int * n as int);
    assert((p >> 64u128) as int == p as int / 0x1_0000_0000_0000_0000int);
    assert((p >> 64u128) < n as u128) by (nonlinear_arith)
        requires
            (p >> 64u128) as int == p as int / 0x1_0000_0000_0000_0000int,
            p as int == x as int * n as int,
            0 <= x < 0x1_0000_0000_0000_0000int,
            n > 1,
    {
        assert((p as int) < 0x1_0000_0000_0000_0000int * (n as int));
    }
    assert(spec_bounded_index(x, n) == ((p >> 64u128) as usize));
}

/// Every index below a size that is not a power of two is the index of some
/// draw: the one that starts its run.
pub proof fn lemma_bounded_index_reaches_every_option(n: usize, k: usize)
    requires
        n > 1,
        !spec_is_pow2(n),
        k < n,
    ensures
        exists|x: u64| spec_bounded_index(x, n) == k,
{
    let m: int = 0x1_0000_0000_0000_0000int;
    let xi: int = (k as int * m + n as int - 1) / (n as int);
    assert(0 <= xi < m && xi * (n as int) >= k as int * m && xi * (n as int) < (k as int + 1) * m) by (nonlinear_arith)
        requires
            xi == (k as int * m + n as int - 1) / (n as int),
            0 <= k < n,
            1 < n < m,
            m == 0x1_0000_0000_0000_0000int,
    {
        assert(xi * (n as int) <= k as int * m + n as int - 1);
        assert(xi * (n as int) > k as int * m + n as int - 1 - n as int);
    }
    let x: u64 = xi as u64;
    lemma_bounded_index_is_scaled_draw(x, n);
    assert((x as int * n as int) / m == k as int) by (nonlinear_arith)
        requires
            x as int == xi,
            xi * (n as int) >= k as int * m,
            xi * (n as int) < (k as int + 1) * m,
            m > 0,
    ;
    assert(spec_bounded_index(x, n) == k);
}

/// Map a raw 64-bit draw to an index in `0..n` (almost uniform; bias is
/// accepted for speed).
pub fn index_of(x: u64, n: usize) -> (r: usize)
    ensures
        r == spec_bounded_index(x, n),
        n > 0 ==> r < n,
        n > 1 && !spec_is_pow2(n) ==> r as int == (x as int * n as int) / 0x1_0000_0000_0000_0000int,
{
    proof {
        if n > 1 && !spec_is_pow2(n) {
            lemma_bounded_index_is_scaled_draw(x, n);
        }
        if n > 0 {
            lemma_bounded_index_in_range(x, n);
        }
    }
    if n <= 1 {
        return 0;
    }
    if n & (n - 1) == 0 {
        return (x as usize) & (n - 1);
    }
    proof {
        lemma_wide_product_fits(x, n);
    }
    let wide: u128 = (x as u128) * (n as u128);
    proof {
        lemma_bounded_index_in_range(x, n);
    }
    (wide >> 64) as usize
}

/// A fast source of 64-bit draws.
pub trait Entropy: Sized {
    /// A draw of `r` takes the source from `self` to `next`. A source that
    /// does not define it says nothing of its draws.
    open spec fn steps_to(&self, r: u64, next: &Self) -> bool {
        true
    }

    /// The next draw, and the source after it.
    fn next_u64(&mut self) -> (r: u64)
        ensures
            old(self).steps_to(r, &*final(self)),
    ;

    /// Fast almost-uniform index in `0..n`. Bias is accepted for speed.
    /// Below two options no draw is made and the index is 0; otherwise one
    /// draw `x` is made and mapped by `index_of`.
    fn bounded_usize(&mut self, n: usize) -> (r: usize)
        ensures
            n > 0 ==> r < n,
            n <= 1 ==> r == 0 && *final(self) == *old(self),
            n > 1 ==> exists|x: u64| old(self).steps_to(x, &*final(self)) && r == spec_bounded_index(x, n),
    {
        if n <= 1 {
            return 0;
        }
        let x = self.next_u64();
        index_of(x, n)
    }
}

/// xoshiro256++ 1.0 — small state, fast, not cryptographic.
#[derive(Clone, Debug)]
pub struct Xoshiro256PlusPlus {
    s: [u64; 4],
}

impl View for Xoshiro256PlusPlus {
    type V = State;

    closed spec fn view(&self) -> State {
        (self.s[0], self.s[1], self.s[2], self.s[3])
    }
}

impl Xoshiro256PlusPlus {
    /// Seed from four chained SplitMix64 draws.
    pub fn from_seed(seed: u64) -> (r: Self)
        ensures
            r@ == spec_seed_state(seed),
            r@ != zero_state(),
    {
        let a = splitmix64(seed);
        let b = splitmix64(a);
        let c = splitmix64(b);
        let d = splitmix64(c);
        // Avoid the all-zero state, which is a fixed point.
        if a == 0 && b == 0 && c == 0 && d == 0 {
            Xoshiro256PlusPlus { s: [1, 0, 0, 0] }
        } else {
            Xoshiro256PlusPlus { s: [a, b, c, d] }
        }
    }

    /// Return the next output and advance the state.
    pub fn next_u64(&mut self) -> (r: u64)
        ensures
            r == spec_output(old(self)@),
            final(self)@ == spec_advance(old(self)@),
            ({
                let (s0, s1, s2, s3) = old(self)@;
                let sum = s0.wrapping_add(s3);
                &&& r == ((sum << 23u64) | (sum >> 41u64)).wrapping_add(s0)
                &&& final(self)@ == (
                    s0 ^ s1 ^ s3,
                    s0 ^ s1 ^ s2,
                    s0 ^ s2 ^ (s1 << 17u64),
                    ((s1 ^ s3) << 45u64) | ((s1 ^ s3) >> 19u64),
                )
            }),
    {
        proof {
            lemma_advance_words(self@);
        }
        let s0 = self.s[0];
        let s1 = self.s[1];
        let s2 = self.s[2];
        let s3 = self.s[3];
        let sum = s0.wrapping_add(s3);
        let result = ((sum << 23) | (sum >> 41)).wrapping_add(s0);
        let t = s1 << 17;
        let n2 = s2 ^ s0;
        let n3 = s3 ^ s1;
        let n1 = s1 ^ n2;
        let n0 = s0 ^ n3;
        let n2 = n2 ^ t;
        let n3 = (n3 << 45) | (n3 >> 19);
        self.s = [n0, n1, n2, n3];
        result
    }

    /// An index in `0..n` from the next draw.
    pub fn bounded_usize(&mut self, n: usize) -> (r: usize)
        ensures
            n > 1 ==> r == spec_bounded_index(spec_output(old(self)@), n),
            n > 1 ==> final(self)@ == spec_advance(old(self)@),
            n <= 1 ==> r == 0 && final(self)@ == old(self)@,
            n > 0 ==> r < n,
    {
        if n <= 1 {
            return 0;
        }
        let x = self.next_u64();
        index_of(x, n)
    }

    /// Advance the stream by the xoshiro256 jump polynomial (2^128 steps).
    pub fn jump(&mut self)
        ensures
            final(self)@ == spec_jump(old(self)@),
    {
        let ghost start = self@;
        let mut s0: u64 = 0;
        let mut s1: u64 = 0;
        let mut s2: u64 = 0;
        let mut s3: u64 = 0;
        let mut w: usize = 0;
        while w < 4
            invariant
                w <= 4,
                (s0, s1, s2, s3) == spec_jump_acc(start, (64 * w) as nat),
                self@ == spec_advance_n(start, (64 * w) as nat),
            decreases 4 - w,
        {
            let word = jump_word(w);
            let mut bit: u64 = 0;
            while bit < 64
                invariant
                    w < 4,
                    bit <= 64,
                    word == spec_jump_word(w as int),
                    (s0, s1, s2, s3) == spec_jump_acc(start, (64 * w + bit) as nat),
                    self@ == spec_advance_n(start, (64 * w + bit) as nat),
                decreases 64 - bit,
            {
                let ghost k: nat = (64 * w + bit) as nat;
                assert(k as int / 64 == w as int && k % 64 == bit as nat) by (nonlinear_arith)
                    requires
                        k == 64 * w + bit,
                        bit < 64,
                ;
                if (word & (1u64 << bit)) != 0 {
                    s0 = s0 ^ self.s[0];
                    s1 = s1 ^ self.s[1];
                    s2 = s2 ^ self.s[2];
                    s3 = s3 ^ self.s[3];
                }
                self.next_u64();
                bit = bit + 1;
            }
            w = w + 1;
        }
        self.s = [s0, s1, s2, s3];
    }

    /// The four state words.
    pub fn state(&self) -> (r: [u64; 4])
        ensures
            (r[0], r[1], r[2], r[3]) == self@,
    {
        self.s
    }
}

impl Entropy for Xoshiro256PlusPlus {
    /// A draw is the generator's output, and it advances the state once.
    open spec fn steps_to(&self, r: u64, next: &Self) -> bool {
        r == spec_output(self@) && next@ == spec_advance(self@)
    }

    fn next_u64(&mut self) -> (r: u64)
        ensures
            r == spec_output(old(self)@),
            final(self)@ == spec_advance(old(self)@),
    {
        Xoshiro256PlusPlus::next_u64(self)
    }
}

/// The vector unit a bulk fill uses.
#[derive(Debug, Clone, Copy, PartialEq, Eq)]
pub enum Backend {
    Scalar,
    Avx2,
    Neon,
}

impl Backend {
    pub fn as_str(self) -> (r: &'static str)
        ensures
            self == Backend::Scalar ==> r@ == "scalar"@,
            self == Backend::Avx2 ==> r@ == "avx2"@,
            self == Backend::Neon ==> r@ == "neon"@,
    {
        match self {
            Backend::Scalar => "scalar",
            Backend::Avx2 => "avx2",
            Backend::Neon => "neon",
        }
    }

    /// How many independent streams a fill with this backend interleaves.
    pub open spec fn lanes(self) -> nat {
        match self {
            Backend::Scalar => 1,
            Backend::Avx2 => 4,
            Backend::Neon => 2,
        }
    }
}

/// What the running CPU offers, as probed by the caller.
#[derive(Debug, Clone, Copy, PartialEq, Eq)]
pub struct CpuFeatures {
    pub x86_64: bool,
    pub avx2: bool,
    pub aarch64: bool,
}

/// Pick the fill backend for a CPU: AVX2 on x86-64 when available, NEON on
/// AArch64, the scalar generator otherwise.
pub fn detect_backend(cpu: CpuFeatures) -> (r: Backend)
    ensures
        r == (if cpu.x86_64 {
            if cpu.avx2 {
                Backend::Avx2
            } else {
                Backend::Scalar
            }
        } else if cpu.aarch64 {
            Backend::Neon
        } else {
            Backend::Scalar
        }),
{
    if cpu.x86_64 {
        if cpu.avx2 {
            Backend::Avx2
        } else {
            Backend::Scalar
        }
    } else if cpu.aarch64 {
        Backend::Neon
    } else {
        Backend::Scalar
    }
}

/// Slot `i` of a fill that interleaves `lanes` streams, each seeded from one
/// draw of `seeder`: stream `i % lanes` at its step `i / lanes`.
pub open spec fn spec_lane_output(seeder: State, lanes: nat, i: nat) -> u64 {
    spec_nth_output(spec_seed_state(spec_nth_output(seeder, i % lanes)), i / lanes)
}

/// What a fill of `len` slots with `backend` writes at slot `i`.
pub open spec fn spec_fill_slot(seeder: State, backend: Backend, len: nat, i: nat) -> u64 {
    match backend {
        Backend::Scalar => spec_lane_output(seeder, 1, i),
        Backend::Avx2 => spec_lane_output(seeder, 4, i),
        Backend::Neon => if i + 1 == len && len % 2 == 1 {
            spec_nth_output(seeder, 2)
        } else {
            spec_lane_output(seeder, 2, i)
        },
    }
}

/// How many draws a fill of `len` slots takes from the seeder.
pub open spec fn spec_fill_draws(backend: Backend, len: nat) -> nat {
    match backend {
        Backend::Scalar => 1,
        Backend::Avx2 => 4,
        Backend::Neon => if len % 2 == 1 { 3 } else { 2 },
    }
}

/// Fill `out` from independent xoshiro streams seeded by `seeder`, interleaved
/// as the backend's vector lanes would produce them.
pub fn fill_u64s(out: &mut [u64], seeder: &mut Xoshiro256PlusPlus, backend: Backend)
    ensures
        final(out)@.len() == old(out)@.len(),
        forall|i: int|
            0 <= i < old(out)@.len() ==> #[trigger] final(out)@[i] == spec_fill_slot(
                old(seeder)@,
                backend,
                old(out)@.len() as nat,
                i as nat,
            ),
        final(seeder)@ == spec_advance_n(old(seeder)@, spec_fill_draws(backend, old(out)@.len() as nat)),
{
    match backend {
        Backend::Avx2 => fill_lanes4(out, seeder),
        Backend::Neon => fill_lanes2(out, seeder),
        Backend::Scalar => fill_scalar(out, seeder),
    }
}

fn fill_scalar(out: &mut [u64], seeder: &mut Xoshiro256PlusPlus)
    ensures
        final(out)@.len() == old(out)@.len(),
        forall|i: int|
            0 <= i < old(out)@.len() ==> #[trigger] final(out)@[i] == spec_lane_output(
                old(seeder)@,
                1,
                i as nat,
            ),
        final(seeder)@ == spec_advance_n(old(seeder)@, 1),
{
    let ghost s0 = seeder@;
    let seed = seeder.next_u64();
    assert(spec_nth_output(s0, 0) == seed);
    let mut rng = Xoshiro256PlusPlus::from_seed(seed);
    let ghost st = rng@;
    let n = out.len();
    let mut i: usize = 0;
    while i < n
        invariant
            i <= n,
            n == out@.len(),
            rng@ == spec_advance_n(st, i as nat),
            st == spec_seed_state(spec_nth_output(s0, 0)),
            forall|j: int| 0 <= j < i ==> #[trigger] out@[j] == spec_lane_output(s0, 1, j as nat),
        decreases n - i,
    {
        let v = rng.next_u64();
        out[i] = v;
        proof {
            assert((i as nat) % 1 == 0 && (i as nat) / 1 == i as nat);
            assert(spec_advance_n(st, (i + 1) as nat) == spec_advance(spec_advance_n(st, i as nat)));
        }
        i = i + 1;
    }
    proof {
        assert(spec_advance_n(s0, 1) == spec_advance(spec_advance_n(s0, 0)));
    }
}

proof fn lemma_lane_slot(k: nat, l: nat, lanes: nat)
    requires
        0 < lanes,
        l < lanes,
    ensures
        (lanes * k + l) % lanes == l,
        (lanes * k + l) / lanes == k,
{
    assert((lanes * k + l) % lanes == l && (lanes * k + l) / lanes == k) by (nonlinear_arith)
        requires
            0 < lanes,
            l < lanes,
    {
        vstd::arithmetic::div_mod::lemma_fundamental_div_mod_converse(
            (lanes * k + l) as int,
            lanes as int,
            k as int,
            l as int,
        );
    }
}

/// Draw one seed from `seeder` and start a stream from it.
fn lane_stream(seeder: &mut Xoshiro256PlusPlus, Ghost(s0): Ghost<State>, Ghost(m): Ghost<nat>) -> (r: Xoshiro256PlusPlus)
    requires
        old(seeder)@ == spec_advance_n(s0, m),
    ensures
        r@ == spec_seed_state(spec_nth_output(s0, m)),
        final(seeder)@ == spec_advance_n(s0, m + 1),
{
    let seed = seeder.next_u64();
    assert(spec_advance_n(s0, m + 1) == spec_advance(spec_advance_n(s0, m)));
    Xoshiro256PlusPlus::from_seed(seed)
}

/// Four interleaved streams, as an AVX2 register of four 64-bit lanes holds them.
fn fill_lanes4(out: &mut [u64], seeder: &mut Xoshiro256PlusPlus)
    ensures
        final(out)@.len() == old(out)@.len(),
        forall|i: int|
            0 <= i < old(out)@.len() ==> #[trigger] final(out)@[i] == spec_lane_output(
                old(seeder)@,
                4,
                i as nat,
            ),
        final(seeder)@ == spec_advance_n(old(seeder)@, 4),
{
    let ghost s0 = seeder@;
    assert(spec_advance_n(s0, 0) == s0);
    let mut a = lane_stream(seeder, Ghost(s0), Ghost(0));
    let mut b = lane_stream(seeder, Ghost(s0), Ghost(1));
    let mut c = lane_stream(seeder, Ghost(s0), Ghost(2));
    let mut d = lane_stream(seeder, Ghost(s0), Ghost(3));
    let ghost sa = a@;
    let ghost sb = b@;
    let ghost sc = c@;
    let ghost sd = d@;
    let n = out.len();
    let q = n / 4;
    let mut k: usize = 0;
    while k < q
        invariant
            k <= q,
            q == n / 4,
            n == out@.len(),
            sa == spec_seed_state(spec_nth_output(s0, 0)),
            sb == spec_seed_state(spec_nth_output(s0, 1)),
            sc == spec_seed_state(spec_nth_output(s0, 2)),
            sd == spec_seed_state(spec_nth_output(s0, 3)),
            a@ == spec_advance_n(sa, k as nat),
            b@ == spec_advance_n(sb, k as nat),
            c@ == spec_advance_n(sc, k as nat),
            d@ == spec_advance_n(sd, k as nat),
            forall|j: int| 0 <= j < 4 * k ==> #[trigger] out@[j] == spec_lane_output(s0, 4, j as nat),
        decreases q - k,
    {
        let base = 4 * k;
        proof {
            lemma_lane_slot(k as nat, 0, 4);
            lemma_lane_slot(k as nat, 1, 4);
            lemma_lane_slot(k as nat, 2, 4);
            lemma_lane_slot(k as nat, 3, 4);
        }
        out[base] = a.next_u64();
        out[base + 1] = b.next_u64();
        out[base + 2] = c.next_u64();
        out[base + 3] = d.next_u64();
        proof {
            assert(spec_advance_n(sa, (k + 1) as nat) == spec_advance(spec_advance_n(sa, k as nat)));
            assert(spec_advance_n(sb, (k + 1) as nat) == spec_advance(spec_advance_n(sb, k as nat)));
            assert(spec_advance_n(sc, (k + 1) as nat) == spec_advance(spec_advance_n(sc, k as nat)));
            assert(spec_advance_n(sd, (k + 1) as nat) == spec_advance(spec_advance_n(sd, k as nat)));
        }
        k = k + 1;
    }
    let base = 4 * q;
    let rem = n - base;
    proof {
        lemma_lane_slot(q as nat, 0, 4);
        lemma_lane_slot(q as nat, 1, 4);
        lemma_lane_slot(q as nat, 2, 4);
        assert(rem < 4);
    }
    if rem > 0 {
        out[base] = a.next_u64();
    }
    if rem > 1 {
        out[base + 1] = b.next_u64();
    }
    if rem > 2 {
        out[base + 2] = c.next_u64();
    }
}

/// Two interleaved streams, as a NEON register of two 64-bit lanes holds them;
/// an odd last slot takes the seeder's next draw.
fn fill_lanes2(out: &mut [u64], seeder: &mut Xoshiro256PlusPlus)
    ensures
        final(out)@.len() == old(out)@.len(),
        forall|i: int|
            0 <= i < old(out)@.len() ==> #[trigger] final(out)@[i] == spec_fill_slot(
                old(seeder)@,
                Backend::Neon,
                old(out)@.len() as nat,
                i as nat,
            ),
        final(seeder)@ == spec_advance_n(old(seeder)@, spec_fill_draws(Backend::Neon, old(out)@.len() as nat)),
{
    let ghost s0 = seeder@;
    assert(spec_advance_n(s0, 0) == s0);
    let mut a = lane_stream(seeder, Ghost(s0), Ghost(0));
    let mut b = lane_stream(seeder, Ghost(s0), Ghost(1));
    let ghost sa = a@;
    let ghost sb = b@;
    let n = out.len();
    let q = n / 2;
    let mut k: usize = 0;
    while k < q
        invariant
            k <= q,
            q == n / 2,
            n == out@.len(),
            sa == spec_seed_state(spec_nth_output(s0, 0)),
            sb == spec_seed_state(spec_nth_output(s0, 1)),
            a@ == spec_advance_n(sa, k as nat),
            b@ == spec_advance_n(sb, k as nat),
            forall|j: int| 0 <= j < 2 * k ==> #[trigger] out@[j] == spec_lane_output(s0, 2, j as nat),
        decreases q - k,
    {
        let base = 2 * k;
        proof {
            lemma_lane_slot(k as nat, 0, 2);
            lemma_lane_slot(k as nat, 1, 2);
        }
        out[base] = a.next_u64();
        out[base + 1] = b.next_u64();
        proof {
            assert(spec_advance_n(sa, (k + 1) as nat) == spec_advance(spec_advance_n(sa, k as nat)));
            assert(spec_advance_n(sb, (k + 1) as nat) == spec_advance(spec_advance_n(sb, k as nat)));
        }
        k = k + 1;
    }
    if n - 2 * q > 0 {
        let ghost before = seeder@;
        let v = seeder.next_u64();
        out[2 * q] = v;
        proof {
            assert(before == spec_advance_n(s0, 2));
            assert(spec_advance_n(s0, 3) == spec_advance(spec_advance_n(s0, 2)));
        }
    }
    assert(n % 2 == 1 <==> n - 2 * q > 0);
}

fn jump_word(w: usize) -> (r: u64)
    requires
        w < 4,
    ensures
        r == spec_jump_word(w as int),
{
    if w == 0 {
        0x180E_C6D3_3CFD_0ABA
    } else if w == 1 {
        0xD5A6_1266_F0C9_392C
    } else if w == 2 {
        0xA958_2618_E03F_C2AA
    } else {
        0x39AB_DC45_29B1_66C2
    }
}

} // verus!
