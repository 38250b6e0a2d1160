//! The constellation of an M-QAM modulation: which symbol sits in which cell
//! of the square grid of amplitudes.
//!
//! Rows and columns are numbered with a reflected Gray code, so that moving
//! to a neighbouring cell changes exactly one bit of the symbol.  The
//! waveforms of the symbols are built by the modulation from the amplitudes
//! (`coefficients`) of each cell.
use vstd::prelude::*;
use vstd::arithmetic::power2::*;
use vstd::arithmetic::div_mod::*;
use vstd::arithmetic::mul::*;
use vstd::bits::{lemma_u64_pow2_no_overflow, lemma_u64_shl_is_mul};
use crate::bits::{bit_distance, lemma_bit_distance_self, lemma_bit_distance_symmetric};

verus! {

/// The reflected binary Gray code on `b` bits: the code on `b - 1` bits, then
/// the same code backwards with the top bit set.
pub open spec fn gray_code(b: nat) -> Seq<nat>
    decreases b,
{
    if b == 0 {
        seq![0]
    } else {
        let g = gray_code((b - 1) as nat);
        g + g.reverse().map_values(|v: nat| v + pow2((b - 1) as nat))
    }
}

/// Each value of `s` is below `bound` and appears once.
pub open spec fn is_permutation_below(s: Seq<nat>, bound: nat) -> bool {
    &&& forall|i: int| 0 <= i < s.len() ==> #[trigger] s[i] < bound
    &&& forall|i: int, j: int| 0 <= i < s.len() && 0 <= j < s.len() && i != j ==> #[trigger] s[i]
        != #[trigger] s[j]
}

/// Two successive values of `s` differ in exactly one of the `w` lowest bits.
pub open spec fn one_bit_steps(s: Seq<nat>, w: nat) -> bool {
    forall|i: int| 0 <= i < s.len() - 1 ==> #[trigger] bit_distance(s[i], s[i + 1], w) == 1
}

/// Below `2^(w-1)`: the top bit is clear and the other bits are the value.
proof fn lemma_low_half(x: nat, w: nat)
    requires
        w > 0,
        x < pow2((w - 1) as nat),
    ensures
        x / pow2((w - 1) as nat) == 0,
        x % pow2((w - 1) as nat) == x,
{
    let p = pow2((w - 1) as nat);
    lemma_pow2_pos((w - 1) as nat);
    lemma_basic_div(x as int, p as int);
    lemma_small_mod(x, p);
}

/// `2^(w-1) + x` with `x < 2^(w-1)`: the top bit is set and the other bits are `x`.
proof fn lemma_high_half(x: nat, w: nat)
    requires
        w > 0,
        x < pow2((w - 1) as nat),
    ensures
        (pow2((w - 1) as nat) + x) / pow2((w - 1) as nat) == 1,
        (pow2((w - 1) as nat) + x) % pow2((w - 1) as nat) == x,
{
    let p = pow2((w - 1) as nat);
    lemma_pow2_pos((w - 1) as nat);
    lemma_fundamental_div_mod_converse((p + x) as int, p as int, 1, x as int);
}

/// Values below `2^(w-1)` differ in as many bits on `w` bits as on `w - 1`.
proof fn lemma_distance_low(a: nat, c: nat, w: nat)
    requires
        w > 0,
        a < pow2((w - 1) as nat),
        c < pow2((w - 1) as nat),
    ensures
        bit_distance(a, c, w) == bit_distance(a, c, (w - 1) as nat),
{
    lemma_low_half(a, w);
    lemma_low_half(c, w);
}

/// Setting the same top bit in both values does not change their distance.
proof fn lemma_distance_high(a: nat, c: nat, w: nat)
    requires
        w > 0,
        a < pow2((w - 1) as nat),
        c < pow2((w - 1) as nat),
    ensures
        bit_distance(a + pow2((w - 1) as nat), c + pow2((w - 1) as nat), w) == bit_distance(
            a,
            c,
            (w - 1) as nat,
        ),
{
    lemma_high_half(a, w);
    lemma_high_half(c, w);
}

/// The reflected Gray code on `b` bits lists every value below `2^b` once,
/// and successive values differ in exactly one bit.
pub proof fn lemma_gray_code(b: nat)
    ensures
        gray_code(b).len() == pow2(b),
        is_permutation_below(gray_code(b), pow2(b)),
        one_bit_steps(gray_code(b), b),
    decreases b,
{
    if b == 0 {
        lemma2_to64();
    } else {
        let m = (b - 1) as nat;
        let p = pow2(m);
        let g = gray_code(m);
        lemma_gray_code(m);
        lemma_pow2_unfold(b);
        let h = g.reverse().map_values(|v: nat| v + p);
        let s = gray_code(b);
        assert(s == g + h);
        assert forall|i: int| 0 <= i < s.len() implies #[trigger] s[i] < pow2(b) by {
            if i >= g.len() {
                assert(h[i - g.len()] == g[g.len() - 1 - (i - g.len())] + p);
            }
        }
        assert forall|i: int, j: int|
            0 <= i < s.len() && 0 <= j < s.len() && i != j implies #[trigger] s[i] != #[trigger] s[j] by {
            if i < g.len() && j >= g.len() {
                assert(s[j] == g[g.len() - 1 - (j - g.len())] + p);
            } else if i >= g.len() && j < g.len() {
                assert(s[i] == g[g.len() - 1 - (i - g.len())] + p);
            } else if i >= g.len() && j >= g.len() {
                assert(s[i] == g[g.len() - 1 - (i - g.len())] + p);
                assert(s[j] == g[g.len() - 1 - (j - g.len())] + p);
            }
        }
        assert forall|i: int| 0 <= i < s.len() - 1 implies #[trigger] bit_distance(
            s[i],
            s[i + 1],
            b,
        ) == 1 by {
            let gl = g.len() as int;
            if i + 1 < gl {
                assert(bit_distance(g[i], g[i + 1], m) == 1);
                lemma_distance_low(g[i], g[i + 1], b);
            } else if i + 1 == gl {
                let x = g[i];
                assert(s[i + 1] == g[gl - 1] + p);
                lemma_low_half(x, b);
                lemma_high_half(x, b);
                lemma_bit_distance_self(x, m);
            } else {
                let a = g[gl - 1 - (i - gl)];
                let c = g[gl - 1 - (i + 1 - gl)];
                assert(s[i] == a + p);
                assert(s[i + 1] == c + p);
                let k = gl - 1 - (i + 1 - gl);
                assert(bit_distance(g[k], g[k + 1], m) == 1);
                assert(g[k + 1] == a);
                lemma_bit_distance_symmetric(a, c, m);
                lemma_distance_high(a, c, b);
            }
        }
    }
}

/// Mirroring a value below `2^m` inside `2^(m+1)` and setting the top bit of
/// its code give the code of the mirrored value.
proof fn lemma_gray_mirror(i: u64, j: u64, m: u64)
    by (bit_vector)
    requires
        m < 63,
        j < (1u64 << m),
        i + j + 1 == 2 * (1u64 << m),
    ensures
        (j ^ (j >> 1u64)) + (1u64 << m) == i ^ (i >> 1u64),
{
}

/// The reflected Gray code of `i` is `i ^ (i >> 1)`.
pub proof fn lemma_gray_code_closed_form(b: nat, i: u64)
    requires
        b < 64,
        i < pow2(b),
    ensures
        gray_code(b)[i as int] == (i ^ (i >> 1u64)) as nat,
    decreases b,
{
    if b == 0 {
        lemma2_to64();
        assert(i == 0);
        assert(0u64 ^ (0u64 >> 1u64) == 0u64) by (bit_vector);
    } else {
        let m = (b - 1) as nat;
        let p = pow2(m);
        let g = gray_code(m);
        lemma_gray_code(m);
        lemma_pow2_unfold(b);
        lemma_u64_pow2_no_overflow(m);
        let h = g.reverse().map_values(|v: nat| v + p);
        assert(gray_code(b) == g + h);
        if (i as nat) < p {
            lemma_gray_code_closed_form(m, i);
            assert(gray_code(b)[i as int] == g[i as int]);
        } else {
            let j: u64 = (2 * p - 1 - i) as u64;
            lemma_gray_code_closed_form(m, j);
            assert(h[i - p] == g[g.len() - 1 - (i - p)] + p);
            assert(gray_code(b)[i as int] == g[j as int] + p);
            lemma_u64_shl_is_mul(1, m as u64);
            lemma_gray_mirror(i, j, m as u64);
        }
    }
}


/// Where the symbols of an M-QAM modulation sit on its square grid.
pub struct QamLayout {
    /// Cells on a side of the grid (the square root of the number of symbols).
    pub side: u8,
    /// Bits carried by one symbol.
    pub bit_per_symbol: u8,
    /// Bits that number one row or one column.
    pub bit_per_gray: u8,
    /// The Gray code that numbers rows and columns.
    pub gray: Vec<u8>,
    /// Amplitude of each row and column: `2 * l - side + 1` for the `l`-th.
    pub coefficients: Vec<i8>,
    /// The symbol of each cell, top row first.
    pub indeces_to_symbols: Vec<Vec<usize>>,
}

/// The symbol of the cell in row `r` and column `c` of a grid of `side` cells
/// a side numbered with the Gray code `gray`: the column's number gives the
/// high bits, the number of the row counted from the bottom the low bits.
pub open spec fn cell_symbol(gray: Seq<nat>, side: nat, r: int, c: int) -> nat {
    gray[c] * side + gray[side - 1 - r]
}

impl QamLayout {
    /// The layout for `n_symbols` symbols.  The number of symbols must be an
    /// even power of two, from 4 to 256.
    pub fn new(n_symbols: usize) -> (res: Self)
        requires
            n_symbols == 4 || n_symbols == 16 || n_symbols == 64 || n_symbols == 256,
        ensures
            res.side * res.side == n_symbols,
            pow2(res.bit_per_gray as nat) == res.side,
            res.bit_per_symbol == 2 * res.bit_per_gray,
            pow2(res.bit_per_symbol as nat) == n_symbols,
            res.gray@.len() == res.side,
            forall|i: int| 0 <= i < res.side ==> #[trigger] res.gray@[i] as nat == gray_code(
                res.bit_per_gray as nat,
            )[i],
            res.coefficients@.len() == res.side,
            forall|l: int| 0 <= l < res.side ==> #[trigger] res.coefficients@[l] == 2 * l
                - res.side + 1,
            res.indeces_to_symbols@.len() == res.side,
            forall|r: int|
                0 <= r < res.side ==> (#[trigger] res.indeces_to_symbols@[r])@.len() == res.side,
            forall|r: int, c: int|
                0 <= r < res.side && 0 <= c < res.side ==> #[trigger] res.indeces_to_symbols@[r]@[c]
                    == cell_symbol(gray_code(res.bit_per_gray as nat), res.side as nat, r, c),
    {
        let (side, bits): (u8, u8) = if n_symbols == 4 {
            (2, 1)
        } else if n_symbols == 16 {
            (4, 2)
        } else if n_symbols == 64 {
            (8, 3)
        } else {
            (16, 4)
        };
        proof {
            lemma2_to64();
        }
        // Gray code: start from the one-bit code, reflect until it numbers `side` cells.
        let mut gray: Vec<u8> = vec![0u8, 1u8];
        let mut done: u8 = 1;
        proof {
            assert(gray_code(0) =~= seq![0nat]);
            assert(gray_code(1) =~= seq![0nat, 1nat]);
        }
        while done < bits
            invariant
                1 <= done <= bits <= 4,
                gray@.len() == pow2(done as nat),
                forall|i: int| 0 <= i < gray@.len() ==> #[trigger] gray@[i] as nat == gray_code(
                    done as nat,
                )[i],
            decreases bits - done,
        {
            proof {
                lemma2_to64();
                lemma_gray_code(done as nat);
                lemma_pow2_unfold((done + 1) as nat);
                lemma_pow2_strictly_increases(done as nat, 4);
            }
            let half = gray.len();
            let step: u8 = 2u8 << (done - 1);
            proof {
                assert(step == pow2(done as nat)) by {
                    if done == 1 {
                        assert(2u8 << 0u8 == 2u8) by (bit_vector);
                    } else if done == 2 {
                        assert(2u8 << 1u8 == 4u8) by (bit_vector);
                    } else {
                        assert(2u8 << 2u8 == 8u8) by (bit_vector);
                    }
                }
            }
            let ghost g = gray_code(done as nat);
            let ghost old_gray = gray@;
            let mut k: usize = 0;
            while k < half
                invariant
                    half == old_gray.len(),
                    half == pow2(done as nat),
                    half <= 8,
                    step == pow2(done as nat),
                    k <= half,
                    g.len() == half,
                    forall|i: int| 0 <= i < half ==> #[trigger] old_gray[i] as nat == g[i],
                    forall|i: int| 0 <= i < half ==> #[trigger] g[i] < step,
                    gray@.len() == half + k,
                    forall|i: int| 0 <= i < half ==> #[trigger] gray@[i] == old_gray[i],
                    forall|i: int|
                        half <= i < half + k ==> #[trigger] gray@[i] as nat == g[half - 1 - (i
                            - half)] + step,
                decreases half - k,
            {
                let v = gray[half - 1 - k];
                gray.push(v + step);
                k += 1;
            }
            proof {
                let next = gray_code((done + 1) as nat);
                assert(next == g + g.reverse().map_values(|v: nat| v + pow2(done as nat)));
                assert forall|i: int| 0 <= i < gray@.len() implies #[trigger] gray@[i] as nat
                    == next[i] by {
                    if i >= half {
                        assert(next[i] == g[half - 1 - (i - half)] + step);
                    }
                }
            }
            done += 1;
        }
        let mut coefficients: Vec<i8> = Vec::new();
        let mut l: u8 = 0;
        while l < side
            invariant
                side <= 16,
                l <= side,
                coefficients@.len() == l,
                forall|i: int| 0 <= i < l ==> #[trigger] coefficients@[i] == 2 * i - side + 1,
            decreases side - l,
        {
            coefficients.push((2 * l as i8) - side as i8 + 1);
            l += 1;
        }
        proof {
            lemma_gray_code(bits as nat);
        }
        let mut table: Vec<Vec<usize>> = Vec::new();
        let mut r: u8 = 0;
        while r < side
            invariant
                side <= 16,
                side == pow2(bits as nat),
                gray@.len() == side,
                forall|i: int| 0 <= i < side ==> #[trigger] gray@[i] as nat == gray_code(
                    bits as nat,
                )[i],
                forall|i: int| 0 <= i < side ==> #[trigger] gray_code(bits as nat)[i] < side,
                r <= side,
                table@.len() == r,
                forall|i: int| 0 <= i < r ==> (#[trigger] table@[i])@.len() == side,
                forall|i: int, c: int|
                    0 <= i < r && 0 <= c < side ==> #[trigger] table@[i]@[c] == cell_symbol(
                        gray_code(bits as nat),
                        side as nat,
                        i,
                        c,
                    ),
            decreases side - r,
        {
            let mut row: Vec<usize> = Vec::new();
            let low = gray[(side - 1 - r) as usize] as usize;
            let mut c: u8 = 0;
            while c < side
                invariant
                    side <= 16,
                    r < side,
                    gray@.len() == side,
                    forall|i: int| 0 <= i < side ==> #[trigger] gray@[i] as nat == gray_code(
                        bits as nat,
                    )[i],
                    forall|i: int| 0 <= i < side ==> #[trigger] gray_code(bits as nat)[i] < side,
                    low == gray_code(bits as nat)[side - 1 - r],
                    c <= side,
                    row@.len() == c,
                    forall|j: int| 0 <= j < c ==> #[trigger] row@[j] == cell_symbol(
                        gray_code(bits as nat),
                        side as nat,
                        r as int,
                        j,
                    ),
                decreases side - c,
            {
                let high = gray[c as usize] as usize;
                proof {
                    assert(high < side);
                    lemma_mul_inequality(high as int, 15, side as int);
                }
                row.push(high * side as usize + low);
                c += 1;
            }
            table.push(row);
            r += 1;
        }
        proof {
            assert(side * side == n_symbols);
            lemma_pow2_adds(bits as nat, bits as nat);
        }
        QamLayout {
            side,
            bit_per_symbol: 2 * bits,
            bit_per_gray: bits,
            gray,
            coefficients,
            indeces_to_symbols: table,
        }
    }
}

/// Bits of `hi * 2^w + lo`: the `b` bits of `hi` above the `w` bits of `lo`;
/// the distance adds up over both parts.
pub proof fn lemma_distance_split(hi1: nat, hi2: nat, lo1: nat, lo2: nat, b: nat, w: nat)
    requires
        lo1 < pow2(w),
        lo2 < pow2(w),
    ensures
        bit_distance(hi1 * pow2(w) + lo1, hi2 * pow2(w) + lo2, b + w) == bit_distance(hi1, hi2, b)
            + bit_distance(lo1, lo2, w),
    decreases b,
{
    let pw = pow2(w);
    lemma_pow2_pos(w);
    if b == 0 {
        if hi1 != 0 || hi2 != 0 {
            // only the top bits of width 0 exist: the values are compared on w bits
        }
        assert(bit_distance(hi1, hi2, 0) == 0);
        lemma_fundamental_div_mod_converse((hi1 * pw + lo1) as int, pw as int, hi1 as int, lo1 as int);
        lemma_fundamental_div_mod_converse((hi2 * pw + lo2) as int, pw as int, hi2 as int, lo2 as int);
        assert(b + w == w);
        // on zero high bits, hi * 2^w + lo only shows lo in its w lowest bits
        lemma_distance_mod(hi1 * pw + lo1, hi2 * pw + lo2, lo1, lo2, w);
    } else {
        let q = pow2((b - 1) as nat);
        lemma_pow2_pos((b - 1) as nat);
        let top = pow2((b + w - 1) as nat);
        lemma_pow2_adds((b - 1) as nat, w);
        assert(top == q * pw);
        let x1 = hi1 * pw + lo1;
        let x2 = hi2 * pw + lo2;
        // x / 2^w is hi, x % 2^w is lo
        lemma_fundamental_div_mod_converse(x1 as int, pw as int, hi1 as int, lo1 as int);
        lemma_fundamental_div_mod_converse(x2 as int, pw as int, hi2 as int, lo2 as int);
        lemma_div_denominator(x1 as int, pw as int, q as int);
        lemma_div_denominator(x2 as int, pw as int, q as int);
        lemma_mul_is_commutative(pw as int, q as int);
        lemma_breakdown(x1 as int, pw as int, q as int);
        lemma_breakdown(x2 as int, pw as int, q as int);
        lemma_mul_is_commutative(pw as int, (hi1 % q) as int);
        lemma_mul_is_commutative(pw as int, (hi2 % q) as int);
        lemma_distance_split(hi1 % q, hi2 % q, lo1, lo2, (b - 1) as nat, w);
        assert(((b + w) - 1) as nat == ((b - 1) as nat + w));
    }
}

/// On `w` bits, a value shows only its remainder modulo `2^w`.
proof fn lemma_distance_mod(x1: nat, x2: nat, lo1: nat, lo2: nat, w: nat)
    requires
        lo1 < pow2(w),
        lo2 < pow2(w),
        x1 % pow2(w) == lo1,
        x2 % pow2(w) == lo2,
    ensures
        bit_distance(x1, x2, w) == bit_distance(lo1, lo2, w),
    decreases w,
{
    if w > 0 {
        let p = pow2((w - 1) as nat);
        lemma_pow2_pos((w - 1) as nat);
        lemma_pow2_unfold(w);
        // bit w-1 of x is bit w-1 of x % 2^w, and x % 2^(w-1) is (x % 2^w) % 2^(w-1)
        lemma_mod_mod(x1 as int, p as int, 2);
        lemma_mod_mod(x2 as int, p as int, 2);
        lemma_mul_is_commutative(p as int, 2);
        lemma_breakdown(x1 as int, p as int, 2);
        lemma_breakdown(x2 as int, p as int, 2);
        lemma_breakdown(lo1 as int, p as int, 2);
        lemma_breakdown(lo2 as int, p as int, 2);
        lemma_small_mod(lo1, pow2(w));
        lemma_small_mod(lo2, pow2(w));
        lemma_div_pos_is_pos(x1 as int, p as int);
        lemma_div_pos_is_pos(x2 as int, p as int);
        lemma_mod_bound_lt(x1, p);
        lemma_mod_bound_lt(x2, p);
        lemma_mod_bound_lt(lo1, p);
        lemma_mod_bound_lt(lo2, p);
        lemma_small_mod(x1 % p, p);
        lemma_small_mod(x2 % p, p);
        assert(p * 2 == pow2(w));
        assert(x1 % p == lo1 % p);
        assert(x2 % p == lo2 % p);
        lemma_distance_mod(x1 % p, x2 % p, lo1 % p, lo2 % p, (w - 1) as nat);
        lemma_bit_distance_self(0, 0);
        lemma_distance_mod_top(x1, lo1, w);
        lemma_distance_mod_top(x2, lo2, w);
    }
}

proof fn lemma_mod_bound_lt(x: nat, p: nat)
    requires
        p > 0,
    ensures
        x % p < p,
{
    lemma_mod_bound(x as int, p as int);
}

/// Bit `w - 1` of `x` is bit `w - 1` of `x % 2^w`.
proof fn lemma_distance_mod_top(x: nat, lo: nat, w: nat)
    requires
        w > 0,
        x % pow2(w) == lo,
    ensures
        (x / pow2((w - 1) as nat)) % 2 == (lo / pow2((w - 1) as nat)) % 2,
{
    let p = pow2((w - 1) as nat);
    lemma_pow2_pos((w - 1) as nat);
    lemma_pow2_unfold(w);
    lemma_mul_is_commutative(p as int, 2);
    lemma_breakdown(x as int, p as int, 2);
    lemma_fundamental_div_mod(lo as int, p as int);
    lemma_mod_bound(x as int, p as int);
    lemma_mod_bound((x / p) as int, 2);
    lemma_fundamental_div_mod_converse(lo as int, p as int, ((x / p) % 2) as int, (x % p) as int);
}

/// Every cell of the grid on `b` bits a side holds a different symbol below
/// `4^b`.
pub proof fn lemma_cells_distinct(b: nat, r1: int, c1: int, r2: int, c2: int)
    requires
        0 <= r1 < pow2(b),
        0 <= c1 < pow2(b),
        0 <= r2 < pow2(b),
        0 <= c2 < pow2(b),
    ensures
        cell_symbol(gray_code(b), pow2(b), r1, c1) < pow2(2 * b),
        (r1 != r2 || c1 != c2) ==> cell_symbol(gray_code(b), pow2(b), r1, c1) != cell_symbol(
            gray_code(b),
            pow2(b),
            r2,
            c2,
        ),
{
    let l = pow2(b);
    let g = gray_code(b);
    lemma_gray_code(b);
    lemma_pow2_adds(b, b);
    assert(2 * b == b + b);
    let (h1, y1) = (g[c1], g[l - 1 - r1]);
    let (h2, y2) = (g[c2], g[l - 1 - r2]);
    lemma_mul_inequality(h1 as int, (l - 1) as int, l as int);
    lemma_mul_is_distributive_sub(l as int, l as int, 1);
    lemma_mul_is_commutative(l as int, (l - 1) as int);
    if h1 * l + y1 == h2 * l + y2 {
        lemma_fundamental_div_mod_converse((h1 * l + y1) as int, l as int, h1 as int, y1 as int);
        lemma_fundamental_div_mod_converse((h2 * l + y2) as int, l as int, h2 as int, y2 as int);
        assert(h1 == h2 && y1 == y2);
        assert(c1 == c2);
        assert(l - 1 - r1 == l - 1 - r2);
    }
}

/// Neighbouring cells of the grid on `b` bits a side, side by side or one
/// above the other, hold symbols that differ in exactly one of their `2 * b`
/// bits.
pub proof fn lemma_neighbour_cells(b: nat, r: int, c: int)
    requires
        0 <= r < pow2(b),
        0 <= c < pow2(b),
    ensures
        c + 1 < pow2(b) ==> bit_distance(
            cell_symbol(gray_code(b), pow2(b), r, c),
            cell_symbol(gray_code(b), pow2(b), r, c + 1),
            2 * b,
        ) == 1,
        r + 1 < pow2(b) ==> bit_distance(
            cell_symbol(gray_code(b), pow2(b), r, c),
            cell_symbol(gray_code(b), pow2(b), r + 1, c),
            2 * b,
        ) == 1,
{
    let l = pow2(b);
    let g = gray_code(b);
    lemma_gray_code(b);
    assert(2 * b == b + b);
    let y = g[l - 1 - r];
    if c + 1 < l {
        lemma_distance_split(g[c], g[c + 1], y, y, b, b);
        lemma_bit_distance_self(y, b);
    }
    if r + 1 < l {
        let k = l - 2 - r;
        assert(bit_distance(g[k], g[k + 1], b) == 1);
        lemma_bit_distance_symmetric(g[k], g[k + 1], b);
        lemma_distance_split(g[c], g[c], g[k + 1], g[k], b, b);
        lemma_bit_distance_self(g[c], b);
    }
}

} // verus!
