use vstd::arithmetic::div_mod::{
    lemma_div_is_ordered, lemma_div_multiples_vanish, lemma_fundamental_div_mod,
};
use vstd::arithmetic::power2::{lemma2_to64, lemma_pow2_unfold, pow2};
use vstd::prelude::*;

verus! {

/// An asset is identified by an opaque fixed-width value; identity is equality.
pub type AssetId = u64;

/// Identifier of a liquidity pool.
pub type PoolId = u64;

/// Fee rates are expressed in basis points: `fee_bps / BPS_DENOM` is the fraction kept by the pool.
pub const BPS_DENOM: u64 = 10000;

/// Number of fractional bits of a fixed-point logarithm: a weight of `2^LOG_FRAC_BITS`
/// stands for one bit, that is for a factor of two in the rate.
pub const LOG_FRAC_BITS: u64 = 32;

/// No edge weight exceeds this bound in absolute value (about 232 bits).
pub const WEIGHT_BOUND: i64 = 1000000000000;

/// Mantissas of the logarithm are kept in `[HALF, TOP)`, which stands for `[1, 2)`.
pub const HALF: u128 = 0x4000_0000_0000_0000;

pub const TOP: u128 = 0x8000_0000_0000_0000;

/// One constant-product exchange venue between two distinct assets.
#[derive(Clone, Copy, Debug, PartialEq, Eq, Structural)]
pub struct Pool {
    pub id: PoolId,
    pub asset_a: AssetId,
    pub asset_b: AssetId,
    pub reserve_a: u64,
    pub reserve_b: u64,
    pub fee_bps: u64,
    /// Time of the last confirmed state change of this pool.
    pub updated_at: u64,
}

impl Pool {
    /// Two distinct assets and a fee fraction in [0, 1).
    pub open spec fn wf(&self) -> bool {
        &&& self.asset_a != self.asset_b
        &&& self.fee_bps < BPS_DENOM
    }

    /// One side of the pool holds nothing, so it quotes no rate in either direction.
    pub open spec fn drained(&self) -> bool {
        self.reserve_a == 0 || self.reserve_b == 0
    }

    pub fn is_valid(&self) -> (r: bool)
        ensures
            r == self.wf(),
    {
        self.asset_a != self.asset_b && self.fee_bps < BPS_DENOM
    }
}

/// Output of selling `amount_in` into a constant-product pool holding `r_in` of the
/// input asset and `r_out` of the output asset; the fee is taken from the output.
pub open spec fn swap_out(amount_in: int, r_in: int, r_out: int, fee_bps: int) -> int {
    (amount_in * r_out / (r_in + amount_in)) * (BPS_DENOM - fee_bps) / (BPS_DENOM as int)
}

pub fn swap_output(amount_in: u64, r_in: u64, r_out: u64, fee_bps: u64) -> (r: u64)
    requires
        r_in > 0,
        fee_bps < BPS_DENOM,
    ensures
        r as int == swap_out(amount_in as int, r_in as int, r_out as int, fee_bps as int),
        r <= r_out,
        r_out > 0 ==> r < r_out,
{
    let a = amount_in as u128;
    let d = r_in as u128 + a;
    proof {
        let (ai, ri, ro) = (a as int, d as int, r_out as int);
        assert(ai * ro <= ri * ro) by (nonlinear_arith)
            requires
                ai <= ri,
                ro >= 0,
        ;
        lemma_div_is_ordered(ai * ro, ri * ro, ri);
        assert(ri * ro == ro * ri) by (nonlinear_arith);
        lemma_div_multiples_vanish(ro, ri);
        if ro > 0 {
            assert(ai * ro < ri * ro) by (nonlinear_arith)
                requires
                    ai < ri,
                    ro > 0,
            ;
            let q = (ai * ro) / ri;
            lemma_fundamental_div_mod(ai * ro, ri);
            assert(q < ro) by (nonlinear_arith)
                requires
                    ri * q + (ai * ro) % ri == ai * ro,
                    (ai * ro) % ri >= 0,
                    ai * ro < ri * ro,
                    ri > 0,
            ;
        }
        assert(ai * ro <= 0xffff_ffff_ffff_ffff * 0xffff_ffff_ffff_ffffint) by (nonlinear_arith)
            requires
                0 <= ai <= 0xffff_ffff_ffff_ffff,
                0 <= ro <= 0xffff_ffff_ffff_ffff,
        ;
    }
    let gross = a * (r_out as u128) / d;
    let keep = (BPS_DENOM - fee_bps) as u128;
    proof {
        let (g, k) = (gross as int, keep as int);
        assert(g * k <= g * (BPS_DENOM as int)) by (nonlinear_arith)
            requires
                0 <= k <= BPS_DENOM,
                g >= 0,
        ;
        assert(g * k <= 0xffff_ffff_ffff_ffff * 10000) by (nonlinear_arith)
            requires
                0 <= k <= 10000,
                0 <= g <= 0xffff_ffff_ffff_ffff,
        ;
        lemma_div_is_ordered(g * k, g * (BPS_DENOM as int), BPS_DENOM as int);
        assert(g * (BPS_DENOM as int) == (BPS_DENOM as int) * g) by (nonlinear_arith);
        lemma_div_multiples_vanish(g, BPS_DENOM as int);
    }
    let out = gross * keep / (BPS_DENOM as u128);
    out as u64
}

/// Halves `y` (counting in `k`) until it is below `TOP`; `y * 2^k` stays the value.
pub open spec fn shrink(y: int, k: int) -> (int, int)
    decreases 128 - k,
{
    if y >= TOP && k < 128 {
        shrink(y / 2, k + 1)
    } else {
        (y, k)
    }
}

/// Doubles `y` (counting down in `k`) until it reaches `HALF`.
pub open spec fn grow(y: int, k: int) -> (int, int)
    decreases k + 64,
{
    if y < HALF && k > -64 {
        grow(y * 2, k - 1)
    } else {
        (y, k)
    }
}

/// The next `left` fractional bits of `log2(y / HALF)`, appended to `acc`: squaring the
/// mantissa doubles its logarithm, and a square of two or more gives a one bit.
pub open spec fn frac_bits(y: int, acc: int, left: nat) -> int
    decreases left,
{
    if left == 0 {
        acc
    } else {
        let z = y * y / (HALF as int);
        if z >= TOP {
            frac_bits(z / 2, 2 * acc + 1, (left - 1) as nat)
        } else {
            frac_bits(z, 2 * acc, (left - 1) as nat)
        }
    }
}

/// `log2(x)` in fixed point with `LOG_FRAC_BITS` fractional bits: `x` is written as
/// `m * 2^e` with a 63-bit mantissa `m` in `[1, 2)`, the integer part is `e`, and the
/// fractional bits come from squaring `m`, each square truncated to 62 fractional bits.
pub open spec fn fixed_log2(x: int) -> int {
    let (y1, k1) = shrink(x, 0);
    let (y2, k2) = grow(y1, k1);
    let m = if y2 >= TOP {
        TOP - 1
    } else {
        y2
    };
    (k2 + 62) * pow2(LOG_FRAC_BITS as nat) + frac_bits(m, 0, LOG_FRAC_BITS as nat)
}

/// Weight of trading at the rate `num / den`: `-log2(num / den)` as the difference of
/// the fixed-point logarithms, that is `-ln(num / den) / ln 2` in units of
/// `2^-LOG_FRAC_BITS`. The weights of a cycle add up as the logarithms of its rates
/// multiply, so a negative sum stands for a product of rates above one.
pub open spec fn log_weight(num: int, den: int) -> int {
    fixed_log2(den) - fixed_log2(num)
}

/// Numerator of the marginal rate, after fee, of selling into the `r_in` side.
pub open spec fn rate_num(r_in: int, r_out: int, fee_bps: int) -> int {
    r_out * (BPS_DENOM - fee_bps)
}

/// Denominator of the marginal rate of selling into the `r_in` side.
pub open spec fn rate_den(r_in: int, r_out: int, fee_bps: int) -> int {
    r_in * BPS_DENOM
}

/// Edge weight of the direction that sells into the `r_in` side of a pool.
pub open spec fn direction_weight(r_in: int, r_out: int, fee_bps: int) -> int {
    log_weight(rate_num(r_in, r_out, fee_bps), rate_den(r_in, r_out, fee_bps))
}

/// The weight of the reverse rate is the opposite weight.
pub proof fn lemma_log_weight_antisymmetric(num: int, den: int)
    ensures
        log_weight(den, num) == -log_weight(num, den),
{
}

/// The fixed-point base-2 logarithm of `x`.
pub fn log2_fixed(x: u128) -> (r: i64)
    ensures
        r == fixed_log2(x as int),
        -(2 * 0x1_0000_0000) <= r < 192 * 0x1_0000_0000,
{
    let mut y: u128 = x;
    let mut k: i64 = 0;
    while y >= TOP && k < 128
        invariant
            shrink(x as int, 0) == shrink(y as int, k as int),
            0 <= k <= 128,
        decreases 128 - k,
    {
        y = y / 2;
        k = k + 1;
    }
    let ghost (y1, k1) = (y as int, k as int);
    while y < HALF && k > -64
        invariant
            grow(y1, k1) == grow(y as int, k as int),
            shrink(x as int, 0) == (y1, k1),
            -64 <= k <= 128,
            y < TOP || (y == y1 && k == k1),
        decreases k + 64,
    {
        y = y * 2;
        k = k - 1;
    }
    if y >= TOP {
        y = TOP - 1;
    }
    let ghost m = y as int;
    let mut acc: u64 = 0;
    let mut i: u64 = 0;
    proof {
        lemma2_to64();
    }
    while i < LOG_FRAC_BITS
        invariant
            0 <= i <= LOG_FRAC_BITS,
            y < TOP,
            acc < pow2(i as nat),
            frac_bits(m, 0, LOG_FRAC_BITS as nat) == frac_bits(y as int, acc as int, (
            LOG_FRAC_BITS - i) as nat),
        decreases LOG_FRAC_BITS - i,
    {
        proof {
            lemma_pow2_unfold((i + 1) as nat);
            lemma2_to64();
            assert(y * y < TOP * TOP) by (nonlinear_arith)
                requires
                    y < TOP,
            ;
            lemma_div_is_ordered((y * y) as int, (TOP * TOP) as int, HALF as int);
            lemma_div_multiples_vanish((TOP * 2) as int, HALF as int);
        }
        let z = y * y / HALF;
        if z >= TOP {
            y = z / 2;
            acc = 2 * acc + 1;
        } else {
            y = z;
            acc = 2 * acc;
        }
        i = i + 1;
    }
    proof {
        lemma2_to64();
    }
    (k + 62) * 0x1_0000_0000 + acc as i64
}

/// Weight of the direction that sells `r_in`-side reserves for `r_out`-side ones.
pub fn edge_weight(r_in: u64, r_out: u64, fee_bps: u64) -> (w: i64)
    requires
        fee_bps < BPS_DENOM,
    ensures
        w as int == direction_weight(r_in as int, r_out as int, fee_bps as int),
        -WEIGHT_BOUND <= w <= WEIGHT_BOUND,
{
    proof {
        let (b, k) = (r_out as int, (BPS_DENOM - fee_bps) as int);
        assert(b * k <= 0xffff_ffff_ffff_ffff * 10000) by (nonlinear_arith)
            requires
                0 <= b <= 0xffff_ffff_ffff_ffff,
                0 <= k <= 10000,
        ;
        assert(r_in * 10000 <= 0xffff_ffff_ffff_ffff * 10000);
    }
    let num: u128 = (r_out as u128) * ((BPS_DENOM - fee_bps) as u128);
    let den: u128 = (r_in as u128) * (BPS_DENOM as u128);
    log2_fixed(den) - log2_fixed(num)
}

} // verus!
