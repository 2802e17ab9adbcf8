//! Deterministic, seekable randomness.
//!
//! Every draw derives from the root seed plus an explicit *label* identifying
//! what is being drawn — a node's identity, a session's id, a sweep point. No
//! draw depends on how many draws came before it in wall-clock or arrival order.
//!
//! The whole stream is a closed form: the `k`-th raw draw of a stream in state
//! `s` is `mix(s + k·γ mod 2⁶⁴)`, which is what [`Stream::take_u64`] states and
//! what makes a run reproducible from its seed and labels alone.

use vstd::prelude::*;
use vstd::arithmetic::div_mod::*;
use vstd::arithmetic::mul::*;

verus! {

/// The SplitMix64 increment, an odd constant.
pub const GAMMA: u64 = 0x9E37_79B9_7F4A_7C15;

/// The multiplicative inverse of [`GAMMA`] modulo 2⁶⁴.
pub const GAMMA_INVERSE: u64 = 0xF1DE_83E1_9937_733D;

/// First multiplier of the SplitMix64 finalizer (also the label multiplier).
pub const MIX_MUL_1: u64 = 0xBF58_476D_1CE4_E5B9;

/// Second multiplier of the SplitMix64 finalizer.
pub const MIX_MUL_2: u64 = 0x94D0_49BB_1331_11EB;

/// 2⁶⁴, the modulus of the state arithmetic.
pub open spec fn modulus() -> nat {
    0x1_0000_0000_0000_0000nat
}

/// Multiplication modulo 2⁶⁴.
pub open spec fn mul64(x: u64, y: u64) -> u64 {
    ((x as nat * y as nat) % modulus()) as u64
}

/// The SplitMix64 finalizer as a mathematical function.
#[verifier::opaque]
pub open spec fn mix_spec(z: u64) -> u64 {
    let a = z ^ (z >> 30u64);
    let b = mul64(a, MIX_MUL_1);
    let c = b ^ (b >> 27u64);
    let d = mul64(c, MIX_MUL_2);
    d ^ (d >> 31u64)
}

/// The state a stream for `label` under `seed` starts in.
pub open spec fn initial_state(seed: u64, label: u64) -> u64 {
    mix_spec(mix_spec((seed ^ GAMMA) ^ mul64(label, MIX_MUL_1)))
}

/// The state after `k` draws from state `s`.
pub open spec fn advance(s: u64, k: nat) -> u64 {
    ((s as nat + k * GAMMA as nat) % modulus()) as u64
}

/// The `k`-th raw draw (0-based) of a stream in state `s`.
pub open spec fn draw(s: u64, k: nat) -> u64 {
    mix_spec(advance(s, k + 1))
}

/// The first `n` raw draws of a stream in state `s`.
pub open spec fn draws(s: u64, n: nat) -> Seq<u64> {
    Seq::new(n, |i: int| draw(s, i as nat))
}

/// The rejection threshold for an unbiased draw below `n`.
pub open spec fn zone(n: u64) -> u64 {
    (u64::MAX - (u64::MAX % n)) as u64
}

/// Whether the `j`-th draw from state `s` is accepted for a draw below `n`.
pub open spec fn accepted(s: u64, n: u64, j: nat) -> bool {
    draw(s, j) < zone(n)
}

/// The outcome of an unbiased draw below `n > 0`: `j` is the first accepted
/// draw, the stream ends `j + 1` draws on, and the value is that draw mod `n`.
pub open spec fn below_outcome(s: u64, n: u64, j: nat, r: u64, s_after: u64) -> bool {
    &&& accepted(s, n, j)
    &&& forall|i: nat| i < j ==> !#[trigger] accepted(s, n, i)
    &&& s_after == advance(s, j + 1)
    &&& r == draw(s, j) % n
}

/// A reproducible stream of draws, keyed on a seed and a label.
#[derive(Debug)]
pub struct Stream {
    state: u64,
}

impl Clone for Stream {
    fn clone(&self) -> (r: Stream)
        ensures
            r@ == self@,
    {
        Stream { state: self.state }
    }
}

impl View for Stream {
    type V = u64;

    /// The stream's internal state.
    closed spec fn view(&self) -> u64 {
        self.state
    }
}

/// SplitMix64 finalizer: strong avalanche, so adjacent labels decorrelate.
pub fn mix(z: u64) -> (r: u64)
    ensures
        r == mix_spec(z),
{
    proof {
        reveal(mix_spec);
    }
    let a = z ^ (z >> 30u64);
    let b = a.wrapping_mul(MIX_MUL_1);
    let c = b ^ (b >> 27u64);
    let d = c.wrapping_mul(MIX_MUL_2);
    d ^ (d >> 31u64)
}

/// One step of the state: adding γ wraps exactly like [`advance`] by one.
proof fn lemma_advance_step(s: u64, k: nat)
    ensures
        advance(s, k + 1) == vstd::wrapping::u64_specs::wrapping_add(advance(s, k), GAMMA),
{
    let m = modulus() as int;
    let a = s as int + k * GAMMA as int;
    lemma_mul_is_distributive_add_other_way(GAMMA as int, k as int, 1);
    assert((k + 1) * GAMMA as int == k * GAMMA as int + GAMMA as int);
    lemma_add_mod_noop(a, GAMMA as int, m);
    lemma_mod_twice(GAMMA as int, m);
    lemma_small_mod(GAMMA as nat, m as nat);
    lemma_mod_bound(a, m);
    let r = a % m;
    if r + GAMMA as int >= m {
        lemma_small_mod((r + GAMMA as int - m) as nat, m as nat);
        lemma_mod_add_multiples_vanish(r + GAMMA as int - m, m);
    } else {
        lemma_small_mod((r + GAMMA as int) as nat, m as nat);
    }
}

/// The state after no draws is the state itself.
proof fn lemma_advance_zero(s: u64)
    ensures
        advance(s, 0) == s,
{
    lemma_small_mod(s as nat, modulus());
}

/// `mix(0) == 0`: a state of zero yields the draw zero.
proof fn lemma_mix_zero()
    ensures
        mix_spec(0) == 0,
{
    reveal(mix_spec);
    assert(0u64 ^ (0u64 >> 30u64) == 0u64) by (bit_vector);
    assert(mul64(0, MIX_MUL_1) == 0);
    assert(mul64(0, MIX_MUL_2) == 0);
    assert(0u64 ^ (0u64 >> 27u64) == 0u64) by (bit_vector);
    assert(0u64 ^ (0u64 >> 31u64) == 0u64) by (bit_vector);
}

/// From any state, some draw within 2⁶⁴ steps lands on the state zero.
///
/// γ is odd, so `k ↦ s + k·γ` is a permutation of the residues mod 2⁶⁴; the
/// step that reaches zero is `(2⁶⁴ − s)·γ⁻¹`.
proof fn lemma_zero_is_reached(s: u64) -> (m: nat)
    ensures
        1 <= m <= modulus(),
        advance(s, m) == 0,
{
    let big = modulus() as int;
    let g = GAMMA as int;
    let gi = GAMMA_INVERSE as int;
    let q: int = 10771413168148108919;
    assert(g * gi == 1 + q * big);
    let x = (big - s as int) * gi;
    lemma_mul_nonnegative(big - s as int, gi);
    lemma_mod_bound(x, big);
    let r = x % big;
    // (x mod M)·γ ≡ x·γ (mod M)
    lemma_mul_mod_noop_left(x, g, big);
    // x·γ = (M − s)·γ⁻¹·γ = (M − s)(1 + qM)
    lemma_mul_is_associative(big - s as int, gi, g);
    lemma_mul_is_commutative(gi, g);
    lemma_mul_is_distributive_add(big - s as int, 1, q * big);
    lemma_mul_is_associative(big - s as int, q, big);
    let t = (big - s as int) * q;
    assert(x * g == (big - s as int) + t * big);
    // s + r·γ ≡ s + (M − s) + t·M ≡ 0
    lemma_add_mod_noop(s as int, r * g, big);
    lemma_add_mod_noop(s as int, x * g, big);
    assert(s as int + x * g == big + t * big);
    lemma_mod_multiples_vanish(t + 1, 0, big);
    lemma_mul_is_distributive_add_other_way(big, t, 1);
    assert(big + t * big == (t + 1) * big);
    lemma_mod_multiples_basic(t + 1, big);
    assert((s as int + x * g) % big == 0);
    assert((s as int + r * g) % big == 0);
    if r == 0 {
        // (s + 0) ≡ 0 forces s == 0, and then a full cycle of 2⁶⁴ steps returns to zero.
        lemma_small_mod(s as nat, big as nat);
        assert(s == 0);
        lemma_mod_multiples_basic(g, big);
        lemma_mul_is_commutative(big, g);
        assert((s as int + big * g) % big == 0);
        big as nat
    } else {
        assert(r > 0);
        r as nat
    }
}

impl Stream {
    /// A stream for `label` under `seed`.
    ///
    /// The label is mixed rather than concatenated so that adjacent labels —
    /// consecutive session ids, sibling child indices — give unrelated streams.
    pub fn new(seed: u64, label: u64) -> (r: Stream)
        ensures
            r@ == initial_state(seed, label),
    {
        let state = seed ^ GAMMA;
        let state = mix(state ^ label.wrapping_mul(MIX_MUL_1));
        Stream { state: mix(state) }
    }

    /// A sub-stream for a distinct purpose under the same label.
    ///
    /// Keeps two independent draws about one entity from consuming each other's
    /// values, which would couple them for no reason.
    pub fn split(&self, purpose: u64) -> (r: Stream)
        ensures
            r@ == initial_state(self@, purpose),
    {
        Stream::new(self.state, purpose)
    }

    /// Next raw value.
    pub fn next_u64(&mut self) -> (r: u64)
        ensures
            final(self)@ == advance(old(self)@, 1),
            r == draw(old(self)@, 0),
    {
        proof {
            lemma_advance_zero(self.state);
            lemma_advance_step(self.state, 0);
        }
        self.state = self.state.wrapping_add(GAMMA);
        mix(self.state)
    }

    /// Next value in `[0, n)`, unbiased by rejection.
    ///
    /// Terminates on every state: γ is odd, so within 2⁶⁴ draws the state passes
    /// through zero, whose draw is zero and is always accepted.
    pub fn next_below(&mut self, n: u64) -> (r: u64)
        ensures
            n == 0 ==> r == 0 && final(self)@ == old(self)@,
            n > 0 ==> r < n && exists|j: nat| below_outcome(old(self)@, n, j, r, final(self)@),
    {
        if n == 0 {
            return 0;
        }
        let zone_n = u64::MAX - (u64::MAX % n);
        let ghost s0 = self.state;
        let ghost m = lemma_zero_is_reached(s0);
        proof {
            lemma_mix_zero();
            lemma_advance_zero(s0);
            assert(u64::MAX % n < n);
            assert(accepted(s0, n, (m - 1) as nat));
        }
        let ghost mut k: nat = 0;
        loop
            invariant
                n > 0,
                old(self)@ == s0,
                zone_n == zone(n),
                1 <= m <= modulus(),
                accepted(s0, n, (m - 1) as nat),
                self@ == advance(s0, k),
                k <= m - 1,
                forall|i: nat| i < k ==> !#[trigger] accepted(s0, n, i),
            decreases m - 1 - k,
        {
            proof {
                lemma_advance_step(s0, k);
                lemma_advance_step(advance(s0, k), 0);
                lemma_advance_zero(advance(s0, k));
            }
            let v = self.next_u64();
            proof {
                assert(self@ == advance(s0, k + 1));
                assert(v == draw(s0, k));
            }
            if v < zone_n {
                let r = v % n;
                proof {
                    lemma_mod_bound(v as int, n as int);
                    assert(accepted(s0, n, k));
                    assert(below_outcome(s0, n, k, r, self@));
                    assert(old(self)@ == s0);
                }
                return r;
            }
            proof {
                assert(!accepted(s0, n, k));
                assert(k != m - 1);
                k = k + 1;
            }
        }
    }

    /// The first `n` raw values; for tests and documentation.
    pub fn take_u64(self, n: usize) -> (r: Vec<u64>)
        ensures
            r@ == draws(self@, n as nat),
    {
        let mut st = self;
        let ghost s0 = self@;
        let mut out: Vec<u64> = Vec::new();
        let mut i: usize = 0;
        proof {
            lemma_advance_zero(s0);
        }
        while i < n
            invariant
                i <= n,
                st@ == advance(s0, i as nat),
                out@ == draws(s0, i as nat),
            decreases n - i,
        {
            proof {
                lemma_advance_step(s0, i as nat);
            }
            let v = st.next_u64();
            out.push(v);
            i = i + 1;
            proof {
                assert(out@ =~= draws(s0, i as nat));
            }
        }
        out
    }
}

} // verus!
