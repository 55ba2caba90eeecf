//! Tables for the GPU transforms: twiddle factors, stage after stage, and bit
//! reversal.

use crate::scalar::Real;
use vstd::arithmetic::power2::{
    lemma2_to64, lemma_pow2_pos, lemma_pow2_strictly_increases, lemma_pow2_unfold, pow2,
};
use vstd::prelude::*;

verus! {

use crate::exact::exact_as;
use crate::scalar::{bits_of, cos_of, count_of, functional, integer_of, over_of, pi_of, sin_of, times_of};

/// How often `n` can be halved before it falls below two.
pub open spec fn stage_count(n: nat) -> nat
    decreases n,
{
    if n < 2 {
        0
    } else {
        1 + stage_count(n / 2)
    }
}

/// The angle -2 pi k / block.
pub open spec fn angle<W: Real>(k: nat, block: nat) -> W {
    over_of(
        times_of(times_of(integer_of::<W>(-2i64), pi_of::<W>()), count_of::<W>(k as usize)),
        count_of::<W>(block as usize),
    )
}

/// One stage: cosine and sine of the first half turn of a block of 2^(stage + 1).
pub open spec fn stage_words<W: Real>(stage: nat) -> Seq<u32> {
    Seq::new(
        2 * pow2(stage),
        |i: int|
            {
                let a = angle::<W>((i / 2) as nat, pow2(stage + 1));
                if i % 2 == 0 {
                    bits_of(cos_of(a))
                } else {
                    bits_of(sin_of(a))
                }
            },
    )
}

/// The first `m` stages, one behind the other.
pub open spec fn stages_words<W: Real>(m: nat) -> Seq<u32>
    decreases m,
{
    if m == 0 {
        seq![]
    } else {
        stages_words::<W>((m - 1) as nat) + stage_words::<W>((m - 1) as nat)
    }
}

/// The table for transforms of length `n`: every stage, then zeros up to `n` pairs.
pub open spec fn stockham<W: Real>(n: nat) -> Seq<u32> {
    let words = stages_words::<W>(stage_count(n));
    words + Seq::new((2 * n - words.len()) as nat, |i: int| 0u32)
}

/// The stages below `m` hold 2^m - 1 pairs.
pub proof fn lemma_stages_len<W: Real>(m: nat)
    ensures
        stages_words::<W>(m).len() == 2 * (pow2(m) - 1),
    decreases m,
{
    if m == 0 {
        lemma2_to64();
    } else {
        lemma_stages_len::<W>((m - 1) as nat);
        lemma_pow2_unfold(m);
    }
}

/// 2^stage_count(n) is the largest power of two up to `n`.
pub proof fn lemma_stage_count(n: nat)
    requires
        n > 0,
    ensures
        pow2(stage_count(n)) <= n < 2 * pow2(stage_count(n)),
    decreases n,
{
    if n < 2 {
        lemma2_to64();
    } else {
        lemma_stage_count(n / 2);
        lemma_pow2_unfold(stage_count(n));
    }
}

/// Appends one stage of twiddle factors: a half turn in `half` steps.
fn push_stage<W: Real>(words: &mut Vec<u32>, half: usize, Ghost(stage): Ghost<nat>)
    requires
        half == pow2(stage),
        2 * half <= usize::MAX,
        old(words)@.len() + 2 * half <= usize::MAX,
    ensures
        final(words)@.len() == old(words)@.len() + 2 * half,
        functional::<W>() ==> final(words)@ == old(words)@ + stage_words::<W>(stage),
{
    let block: usize = 2 * half;
    let ghost before = words@;
    proof {
        lemma_pow2_unfold(stage + 1);
    }
    let mut k: usize = 0;
    while k < half
        invariant
            k <= half,
            block == 2 * half,
            half == pow2(stage),
            block == pow2(stage + 1),
            before.len() + block <= usize::MAX,
            words@.len() == before.len() + 2 * k,
            functional::<W>() ==> words@ == before + stage_words::<W>(stage).take(2 * k as int),
        decreases half - k,
    {
        let a = W::integer(-2).times(W::pi()).times(W::count(k)).over(W::count(block));
        words.push(a.cos().bits());
        words.push(a.sin().bits());
        proof {
            if functional::<W>() {
                let all = stage_words::<W>(stage);
                assert(a == angle::<W>(k as nat, block as nat));
                assert((2 * k) / 2 == k && (2 * k + 1) / 2 == k);
                assert(words@ =~= before + all.take(2 * (k + 1)));
            }
        }
        k = k + 1;
    }
    proof {
        assert(stage_words::<W>(stage).take(2 * half as int) =~= stage_words::<W>(stage));
    }
}

/// Fills the table for transforms of length `n`.
pub fn stockham_twiddles<W: Real>(n: usize) -> (words: Vec<u32>)
    requires
        2 * n <= usize::MAX,
    ensures
        words@.len() == 2 * n,
        functional::<W>() ==> words@ == stockham::<W>(n as nat),
{
    let mut words: Vec<u32> = Vec::new();
    let mut half: usize = 1;
    let ghost mut stage: nat = 0;
    proof {
        lemma2_to64();
        if n > 0 {
            lemma_stage_count(n as nat);
        }
    }
    while half <= n / 2
        invariant
            2 * n <= usize::MAX,
            1 <= half,
            half == pow2(stage),
            stage <= stage_count(n as nat),
            n > 0 ==> pow2(stage_count(n as nat)) <= n < 2 * pow2(stage_count(n as nat)),
            n == 0 ==> stage == 0,
            n == 0 || half <= n,
            words@.len() == 2 * (half - 1),
            functional::<W>() ==> words@ == stages_words::<W>(stage),
        decreases n - half,
    {
        push_stage::<W>(&mut words, half, Ghost(stage));
        proof {
            lemma_pow2_unfold(stage + 1);
            if stage >= stage_count(n as nat) {
                assert(false);
            }
            stage = stage + 1;
        }
        half = 2 * half;
    }
    proof {
        if n > 0 && stage < stage_count(n as nat) {
            lemma_pow2_unfold(stage + 1);
            if stage + 1 < stage_count(n as nat) {
                lemma_pow2_strictly_increases(stage + 1, stage_count(n as nat));
            }
            assert(false);
        }
        lemma_stages_len::<W>(stage_count(n as nat));
    }
    let ghost staged = words@;
    while words.len() < 2 * n
        invariant
            2 * n <= usize::MAX,
            staged.len() <= words@.len() <= 2 * n,
            words@ == staged + Seq::new((words@.len() - staged.len()) as nat, |i: int| 0u32),
        decreases 2 * n - words@.len(),
    {
        words.push(0);
        assert(words@ =~= staged + Seq::new(
            (words@.len() - staged.len()) as nat,
            |i: int| 0u32,
        ));
    }
    words
}

/// The twiddles for twice as many points start with those for a power of two.
pub proof fn law_twiddles_extend<S: Real>(b: nat)
    ensures
        ceil_stages(pow2(b)) == b,
        stages_words::<S>(b).len() == 2 * (pow2(b) - 1),
        stages_words::<S>(b).is_prefix_of(stages_words::<S>(b + 1)),
    decreases b,
{
    lemma2_to64();
    lemma_stages_len::<S>(b);
    lemma_stages_len::<S>(b + 1);
    lemma_pow2_unfold(b + 1);
    if b > 0 {
        law_twiddles_extend::<S>((b - 1) as nat);
        lemma_pow2_unfold(b);
        lemma_pow2_pos((b - 1) as nat);
        assert((pow2(b) + 1) / 2 == pow2((b - 1) as nat));
    }
}

/// The least `m` with `n` up to 2^m.
pub open spec fn ceil_stages(n: nat) -> nat
    decreases n,
{
    if n <= 1 {
        0
    } else {
        1 + ceil_stages(((n + 1) / 2) as nat)
    }
}

/// 2^ceil_stages(n) is the smallest power of two from `n` on.
pub proof fn lemma_ceil_stages(n: nat)
    ensures
        n <= pow2(ceil_stages(n)),
        n > 1 ==> pow2(ceil_stages(n)) < 2 * n - 1,
    decreases n,
{
    lemma2_to64();
    if n > 1 {
        lemma_ceil_stages(((n + 1) / 2) as nat);
        lemma_pow2_unfold(ceil_stages(n));
    }
}

/// Counts how many doublings of one reach `n`.
fn count_stages(n: usize) -> (m: u32)
    ensures
        m == ceil_stages(n as nat),
        m <= 64,
    decreases n,
{
    proof {
        lemma2_to64();
        lemma_ceil_bound(n as nat, 64);
    }
    if n <= 1 {
        0
    } else {
        1 + count_stages(n - n / 2)
    }
}

/// Numbers up to 2^b need no more than b stages.
pub proof fn lemma_ceil_bound(n: nat, b: nat)
    requires
        n <= pow2(b),
    ensures
        ceil_stages(n) <= b,
    decreases n,
{
    lemma2_to64();
    if n > 1 {
        assert(b > 0);
        lemma_pow2_unfold(b);
        lemma_ceil_bound(((n + 1) / 2) as nat, (b - 1) as nat);
    }
}

/// Twiddle factors for single-precision transforms of `size` points, without padding.
pub fn generate_twiddles<S: Real>(size: usize) -> (words: Vec<u32>)
    requires
        size <= usize::MAX / 2 + 1,
    ensures
        words@.len() == 2 * (pow2(ceil_stages(size as nat)) - 1),
        functional::<S>() ==> words@ == stages_words::<S>(ceil_stages(size as nat)),
{
    let num_stages: u32 = count_stages(size);
    let mut words: Vec<u32> = Vec::new();
    let mut half: usize = 1;
    let mut stage: u32 = 0;
    let ghost top: nat = if usize::MAX == 0xffff_ffff {
        31
    } else {
        63
    };
    proof {
        lemma2_to64();
        lemma_pow2_unfold(32);
        lemma_pow2_unfold(64);
        assert(pow2(top) == usize::MAX / 2 + 1);
        lemma_ceil_bound(size as nat, top);
    }
    while stage < num_stages
        invariant
            stage <= num_stages <= top,
            pow2(top) == usize::MAX / 2 + 1,
            half == pow2(stage as nat),
            words@.len() == 2 * (half - 1),
            functional::<S>() ==> words@ == stages_words::<S>(stage as nat),
        decreases num_stages - stage,
    {
        proof {
            lemma_pow2_unfold((stage + 1) as nat);
            if stage + 1 < top {
                lemma_pow2_strictly_increases((stage + 1) as nat, top);
            }
        }
        push_stage::<S>(&mut words, half, Ghost(stage as nat));
        half = 2 * half;
        stage = stage + 1;
    }
    words
}

/// The lowest `bits` bits of `i`, in reverse order.
pub open spec fn reversed(bits: nat, i: nat) -> nat
    decreases bits,
{
    if bits == 0 {
        0
    } else {
        (i % 2) * pow2((bits - 1) as nat) + reversed((bits - 1) as nat, i / 2)
    }
}

/// A reversal has no more bits than it was asked for.
pub proof fn lemma_reversed_bound(bits: nat, i: nat)
    ensures
        reversed(bits, i) < pow2(bits),
    decreases bits,
{
    lemma2_to64();
    if bits > 0 {
        lemma_reversed_bound((bits - 1) as nat, i / 2);
        lemma_pow2_unfold(bits);
        let p = pow2((bits - 1) as nat);
        assert((i % 2) * p <= p) by (nonlinear_arith)
            requires
                i % 2 <= 1,
        ;
    }
}

/// The lowest bit of a reversal is the highest bit of what was reversed.
proof fn lemma_reversed_split(bits: nat, i: nat)
    requires
        i < pow2(bits + 1),
    ensures
        reversed(bits + 1, i) == 2 * reversed(bits, i % pow2(bits)) + i / pow2(bits),
        i / pow2(bits) <= 1,
    decreases bits,
{
    lemma2_to64();
    let p = pow2(bits);
    lemma_pow2_unfold(bits + 1);
    vstd::arithmetic::power2::lemma_pow2_pos(bits);
    assert(i / p <= 1) by (nonlinear_arith)
        requires
            i < 2 * p,
            p > 0,
    ;
    if bits == 0 {
        reveal_with_fuel(reversed, 2);
        assert(i / p == i) by (nonlinear_arith)
            requires
                p == 1,
        ;
        assert((i % 2) * pow2(0) == i);
    } else {
        let q = pow2((bits - 1) as nat);
        lemma_pow2_unfold(bits);
        vstd::arithmetic::power2::lemma_pow2_pos((bits - 1) as nat);
        lemma_reversed_split((bits - 1) as nat, i / 2);
        let r = i % p;
        vstd::arithmetic::div_mod::lemma_fundamental_div_mod(i as int, p as int);
        let top = i / p;
        assert(i == p * top + r);
        assert((i / 2) / q == i / p) by {
            vstd::arithmetic::div_mod::lemma_div_denominator(i as int, 2, q as int);
        }
        assert((i / 2) % q == r / 2 && i % 2 == r % 2) by {
            vstd::arithmetic::div_mod::lemma_fundamental_div_mod((i / 2) as int, q as int);
            assert(p * top == 2 * (q * top)) by (nonlinear_arith)
                requires
                    p == 2 * q,
            ;
        }
        assert(reversed(bits + 1, i) == (i % 2) * p + reversed(bits, i / 2));
        assert(reversed(bits, r) == (r % 2) * q + reversed((bits - 1) as nat, r / 2));
        assert((i % 2) * p == 2 * ((r % 2) * q)) by (nonlinear_arith)
            requires
                p == 2 * q,
                i % 2 == r % 2,
        ;
    }
}

/// Reversing twice gives back the number: bit reversal is its own inverse.
pub proof fn law_reversal_is_involution(bits: nat, i: nat)
    requires
        i < pow2(bits),
    ensures
        reversed(bits, reversed(bits, i)) == i,
        reversed(bits, i) < pow2(bits),
    decreases bits,
{
    lemma2_to64();
    lemma_reversed_bound(bits, i);
    if bits > 0 {
        let b = (bits - 1) as nat;
        let p = pow2(b);
        lemma_pow2_unfold(bits);
        law_reversal_is_involution(b, i / 2);
        let j = reversed(bits, i);
        let low = reversed(b, i / 2);
        assert(j == (i % 2) * p + low);
        lemma_reversed_split(b, j);
        assert(j % p == low && j / p == i % 2) by {
            if i % 2 == 0 {
                assert(j == low);
                vstd::arithmetic::div_mod::lemma_small_mod(low, p);
                vstd::arithmetic::div_mod::lemma_basic_div(low as int, p as int);
            } else {
                assert(j == p + low) by (nonlinear_arith)
                    requires
                        j == (i % 2) * p + low,
                        i % 2 == 1,
                ;
                vstd::arithmetic::div_mod::lemma_fundamental_div_mod_converse(
                    j as int,
                    p as int,
                    1,
                    low as int,
                );
            }
        }
    }
}

/// Reverses the lowest `bits` bits of `i`.
fn reverse_bits(bits: u32, i: u32) -> (r: u32)
    requires
        bits <= 32,
    ensures
        r == reversed(bits as nat, i as nat),
    decreases bits,
{
    if bits == 0 {
        0
    } else {
        proof {
            lemma_reversed_bound(bits as nat, i as nat);
            lemma_reversed_bound((bits - 1) as nat, (i / 2) as nat);
            lemma2_to64();
            if bits < 32 {
                lemma_pow2_strictly_increases(bits as nat, 32);
            }
        }
        let rest: u32 = reverse_bits(bits - 1, i / 2);
        if i % 2 == 0 {
            proof {
                assert(0 * pow2((bits - 1) as nat) == 0);
            }
            rest
        } else {
            proof {
                vstd::bits::lemma_u32_shl_is_mul(1, (bits - 1) as u32);
                if bits < 32 {
                    lemma_pow2_strictly_increases((bits - 1) as nat, 31);
                }
                assert(1 * pow2((bits - 1) as nat) == pow2((bits - 1) as nat));
            }
            (1u32 << (bits - 1)) + rest
        }
    }
}

/// The bit reversal of every index below `size`, in as many bits as `size` needs.
pub fn generate_bitrev(size: usize) -> (lut: Vec<u32>)
    requires
        size <= u32::MAX,
    ensures
        lut@.len() == size,
        forall|i: int|
            0 <= i < size ==> #[trigger] lut@[i] == reversed(ceil_stages(size as nat), i as nat),
{
    let bits: u32 = count_stages(size);
    proof {
        lemma2_to64();
        lemma_ceil_bound(size as nat, 32);
    }
    let mut lut: Vec<u32> = Vec::new();
    let mut i: u32 = 0;
    while i < size as u32
        invariant
            i <= size <= u32::MAX,
            bits <= 32,
            bits == ceil_stages(size as nat),
            lut@.len() == i,
            forall|j: int|
                0 <= j < i ==> #[trigger] lut@[j] == reversed(
                    ceil_stages(size as nat),
                    j as nat,
                ),
        decreases size - i,
    {
        lut.push(reverse_bits(bits, i));
        i = i + 1;
    }
    lut
}

/// Where the factors of a stage stand among all.
proof fn lemma_stage_at<W: Real>(m: nat, stage: nat, i: int)
    requires
        stage < m,
        0 <= i < 2 * pow2(stage),
    ensures
        0 <= 2 * (pow2(stage) - 1) + i < stages_words::<W>(m).len(),
        stages_words::<W>(m)[2 * (pow2(stage) - 1) + i] == stage_words::<W>(stage)[i],
    decreases m,
{
    let k = (m - 1) as nat;
    lemma_stages_len::<W>(k);
    lemma_stages_len::<W>(m);
    lemma_pow2_pos(stage);
    if stage < k {
        lemma_stage_at::<W>(k, stage, i);
    }
}

/// The factors of a transform turn clockwise through half a turn in each stage: factor `k` of
/// stage `stage` is the cosine and the sine of an angle `a` of minus `k` of 2^stage parts of half
/// a turn, and the stages stand one behind the other, each twice as long as the one before.
pub proof fn law_twiddles_turn_clockwise<S: Real>(
    v: spec_fn(S) -> real,
    size: usize,
    words: Vec<u32>,
    stage: nat,
    k: nat,
)
    requires
        exact_as(v),
        functional::<S>(),
        size <= usize::MAX / 2 + 1,
        call_ensures(generate_twiddles::<S>, (size,), words),
        pow2(stage) < size,
        k < pow2(stage),
    ensures
        ({
            let a = angle::<S>(k, pow2(stage + 1));
            let at = 2 * (pow2(stage) - 1 + k);
            &&& v(a) * (pow2(stage) as real) == -(v(pi_of::<S>()) * (k as real))
            &&& 0 <= at
            &&& at + 1 < words@.len()
            &&& words@[at as int] == bits_of(cos_of(a))
            &&& words@[at + 1] == bits_of(sin_of(a))
        }),
{
    let m = ceil_stages(size as nat);
    lemma_ceil_stages(size as nat);
    if stage >= m {
        if stage > m {
            lemma_pow2_strictly_increases(m, stage);
        }
    }
    assert(stage < m);
    let i = (2 * k) as int;
    lemma_stage_at::<S>(m, stage, i);
    lemma_stage_at::<S>(m, stage, i + 1);
    assert(i / 2 == k && i % 2 == 0 && (i + 1) / 2 == k && (i + 1) % 2 == 1);
    lemma_stage_bound(size as nat, stage);
    lemma_angle(v, stage, k);
}

/// The angle of a factor.
proof fn lemma_angle<S: Real>(v: spec_fn(S) -> real, stage: nat, k: nat)
    requires
        exact_as(v),
        pow2(stage + 1) <= usize::MAX,
        k < pow2(stage),
    ensures
        v(angle::<S>(k, pow2(stage + 1))) * (pow2(stage) as real) == -(v(pi_of::<S>()) * (
        k as real)),
{
    lemma_pow2_unfold(stage + 1);
    lemma_pow2_pos(stage);
    let h = pow2(stage);
    let c = h as real;
    let b = pow2(stage + 1);
    let d = b as real;
    assert(d == 2real * c);
    let p = v(pi_of::<S>());
    let x = k as real;
    assert(v(integer_of::<S>(-2i64)) == -2real);
    assert(v(count_of::<S>(k as usize)) == x);
    assert(v(count_of::<S>(b as usize)) == d);
    let a = v(angle::<S>(k, b));
    assert(a == ((-2real * p) * x) / d);
    assert(a * d == (-2real * p) * x) by (nonlinear_arith)
        requires
            a == ((-2real * p) * x) / d,
            d > 0real,
    ;
    assert((-2real * p) * x == -2real * (p * x)) by (nonlinear_arith);
    assert(a * d == 2real * (a * c)) by (nonlinear_arith)
        requires
            d == 2real * c,
    ;
}

/// A stage fits where its size does.
proof fn lemma_stage_bound(size: nat, stage: nat)
    requires
        pow2(stage) < size <= usize::MAX / 2 + 1,
    ensures
        pow2(stage + 1) <= usize::MAX,
{
    lemma_pow2_unfold(stage + 1);
}

/// The table for the other order of stages holds the same factors: cosine and sine of minus `k`
/// of 2^stage parts of half a turn, stage behind stage, and zeros behind the last.
pub proof fn law_stockham_twiddles_turn_clockwise<S: Real>(
    v: spec_fn(S) -> real,
    n: usize,
    words: Vec<u32>,
    stage: nat,
    k: nat,
    i: int,
)
    requires
        exact_as(v),
        functional::<S>(),
        n > 0,
        2 * n <= usize::MAX,
        call_ensures(stockham_twiddles::<S>, (n,), words),
        2 * pow2(stage) <= n,
        k < pow2(stage),
        2 * n - 2 <= i < words@.len(),
    ensures
        ({
            let a = angle::<S>(k, pow2(stage + 1));
            let at = 2 * (pow2(stage) - 1 + k);
            &&& v(a) * (pow2(stage) as real) == -(v(pi_of::<S>()) * (k as real))
            &&& 0 <= at
            &&& at + 1 < words@.len()
            &&& words@.len() == 2 * n
            &&& words@[at as int] == bits_of(cos_of(a))
            &&& words@[at + 1] == bits_of(sin_of(a))
            &&& words@[i] == 0
        }),
{
    let m = stage_count(n as nat);
    lemma_stage_count(n as nat);
    lemma_pow2_unfold(stage + 1);
    lemma_pow2_unfold(m + 1);
    if stage >= m {
        if stage > m {
            lemma_pow2_strictly_increases(m, stage);
        }
    }
    assert(stage < m);
    lemma_stages_len::<S>(m);
    let j = (2 * k) as int;
    lemma_stage_at::<S>(m, stage, j);
    lemma_stage_at::<S>(m, stage, j + 1);
    assert(j / 2 == k && j % 2 == 0 && (j + 1) / 2 == k && (j + 1) % 2 == 1);
    lemma_angle(v, stage, k);
}

/// Bit reversal reverses bits: the number below `bits` bits that is twice another, or that and
/// one more, reverses to half the reversal of the other in one bit less, and with the highest bit
/// set where it is odd.
pub proof fn law_reversal_reverses_bits(bits: nat, i: nat)
    requires
        bits > 0,
        i < pow2(bits),
    ensures
        i % 2 == 1 <==> reversed(bits, i) >= pow2((bits - 1) as nat),
        reversed(bits, i) == reversed((bits - 1) as nat, i / 2) + (if i % 2 == 1 {
            pow2((bits - 1) as nat)
        } else {
            0
        }),
        i / pow2((bits - 1) as nat) == reversed(bits, i) % 2,
{
    let b = (bits - 1) as nat;
    let p = pow2(b);
    lemma_pow2_unfold(bits);
    lemma_pow2_pos(b);
    lemma_reversed_bound(b, i / 2);
    assert((i % 2) * p == (if i % 2 == 1 {
        p
    } else {
        0
    })) by (nonlinear_arith)
        requires
            i % 2 == 0 || i % 2 == 1,
    ;
    lemma_reversed_split(b, i);
    let top = i / p;
    assert(top < 2) by (nonlinear_arith)
        requires
            i < 2 * p,
            p > 0,
            top == i / p,
    ;
}

} // verus!
