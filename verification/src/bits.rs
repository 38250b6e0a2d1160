//! Mathematical model of bit streams.
//!
//! Bytes and symbols are both read as fixed-width, most-significant-bit-first
//! groups of a single stream of bits.  Unpacking bytes into symbols and packing
//! symbols into bytes are then both "regroup the same stream".
use vstd::prelude::*;
use vstd::arithmetic::power2::*;
use vstd::arithmetic::div_mod::*;
use vstd::arithmetic::mul::*;

verus! {

/// The `n` lowest bits of `v`, most significant first.
pub open spec fn to_bits(v: nat, n: nat) -> Seq<bool>
    decreases n,
{
    if n == 0 {
        Seq::empty()
    } else {
        to_bits(v / 2, (n - 1) as nat).push(v % 2 == 1)
    }
}

/// The number written by a sequence of bits, most significant first.
pub open spec fn from_bits(bs: Seq<bool>) -> nat
    decreases bs.len(),
{
    if bs.len() == 0 {
        0
    } else {
        2 * from_bits(bs.drop_last()) + (if bs.last() { 1nat } else { 0nat })
    }
}

/// The stream made of the `n`-bit encodings of `vals`, one after the other.
pub open spec fn flatten_bits(vals: Seq<nat>, n: nat) -> Seq<bool>
    decreases vals.len(),
{
    if vals.len() == 0 {
        Seq::empty()
    } else {
        to_bits(vals[0], n) + flatten_bits(vals.drop_first(), n)
    }
}

/// The successive `n`-bit groups of `bs`, each read as a number.
/// A trailing group shorter than `n` bits is left out.
pub open spec fn group_bits(bs: Seq<bool>, n: nat) -> Seq<nat>
    decreases bs.len(),
{
    if n == 0 || bs.len() < n {
        Seq::empty()
    } else {
        seq![from_bits(bs.take(n as int))] + group_bits(bs.skip(n as int), n)
    }
}

/// Bytes seen as numbers.
pub open spec fn byte_values(bytes: Seq<u8>) -> Seq<nat> {
    bytes.map_values(|b: u8| b as nat)
}

/// Symbols seen as numbers.
pub open spec fn symbol_values(symbols: Seq<usize>) -> Seq<nat> {
    symbols.map_values(|s: usize| s as nat)
}

/// The bit stream of a byte sequence: every byte, most significant bit first.
pub open spec fn byte_stream(bytes: Seq<u8>) -> Seq<bool> {
    flatten_bits(byte_values(bytes), 8)
}

/// The bit stream of a symbol sequence: every symbol written on `n` bits.
pub open spec fn symbol_stream(symbols: Seq<usize>, n: nat) -> Seq<bool> {
    flatten_bits(symbol_values(symbols), n)
}

/// Every value fits in `n` bits.
pub open spec fn all_fit(vals: Seq<nat>, n: nat) -> bool {
    forall|i: int| 0 <= i < vals.len() ==> #[trigger] vals[i] < pow2(n)
}

/// The symbols that a byte sequence splits into, `n` bits each.
pub open spec fn unpack_bytes(bytes: Seq<u8>, n: nat) -> Seq<usize> {
    group_bits(byte_stream(bytes), n).map_values(|v: nat| v as usize)
}

/// The bytes that a symbol sequence packs into, `n` bits per symbol.
/// The bits of a last, incomplete byte are dropped.
pub open spec fn pack_symbols(symbols: Seq<usize>, n: nat) -> Seq<u8> {
    group_bits(symbol_stream(symbols, n), 8).map_values(|v: nat| v as u8)
}

/// Number of bit positions, among the `w` lowest, where `a` and `c` differ.
pub open spec fn bit_distance(a: nat, c: nat, w: nat) -> nat
    decreases w,
{
    if w == 0 {
        0
    } else {
        let p = pow2((w - 1) as nat);
        (if (a / p) % 2 != (c / p) % 2 {
            1nat
        } else {
            0nat
        }) + bit_distance(a % p, c % p, (w - 1) as nat)
    }
}

pub proof fn lemma_bit_distance_self(a: nat, w: nat)
    ensures
        bit_distance(a, a, w) == 0,
    decreases w,
{
    if w > 0 {
        let p = pow2((w - 1) as nat);
        lemma_bit_distance_self(a % p, (w - 1) as nat);
        lemma_pow2_pos((w - 1) as nat);
        assert(bit_distance(a, a, w) == bit_distance(a % p, a % p, (w - 1) as nat));
    }
}

pub proof fn lemma_bit_distance_symmetric(a: nat, c: nat, w: nat)
    ensures
        bit_distance(a, c, w) == bit_distance(c, a, w),
    decreases w,
{
    if w > 0 {
        let p = pow2((w - 1) as nat);
        lemma_pow2_pos((w - 1) as nat);
        lemma_bit_distance_symmetric(a % p, c % p, (w - 1) as nat);
        assert(bit_distance(a, c, w) == (if (a / p) % 2 != (c / p) % 2 {
            1nat
        } else {
            0nat
        }) + bit_distance(a % p, c % p, (w - 1) as nat));
    }
}

pub proof fn lemma_to_bits_len(v: nat, n: nat)
    ensures
        #[trigger] to_bits(v, n).len() == n,
    decreases n,
{
    if n > 0 {
        lemma_to_bits_len(v / 2, (n - 1) as nat);
    }
}

/// Reading back the `n` lowest bits of `v` gives `v` modulo `2^n`.
pub proof fn lemma_from_to_bits(v: nat, n: nat)
    ensures
        from_bits(to_bits(v, n)) == v % pow2(n),
    decreases n,
{
    if n == 0 {
        assert(pow2(0) == 1) by {
            lemma2_to64();
        }
    } else {
        let m = (n - 1) as nat;
        lemma_from_to_bits(v / 2, m);
        lemma_to_bits_len(v / 2, m);
        assert(to_bits(v, n).drop_last() =~= to_bits(v / 2, m));
        lemma_pow2_unfold(n);
        lemma_pow2_pos(m);
        lemma_breakdown(v as int, 2, pow2(m) as int);
    }
}

pub proof fn lemma_from_bits_bound(bs: Seq<bool>)
    ensures
        from_bits(bs) < pow2(bs.len()),
    decreases bs.len(),
{
    if bs.len() == 0 {
        lemma2_to64();
    } else {
        lemma_from_bits_bound(bs.drop_last());
        lemma_pow2_unfold(bs.len());
    }
}

/// Writing back the number that a bit sequence reads gives the same bits.
pub proof fn lemma_to_from_bits(bs: Seq<bool>)
    ensures
        to_bits(from_bits(bs), bs.len()) == bs,
    decreases bs.len(),
{
    if bs.len() > 0 {
        let f = from_bits(bs.drop_last());
        let b: nat = if bs.last() { 1 } else { 0 };
        assert((2 * f + b) / 2 == f);
        assert((2 * f + b) % 2 == b);
        lemma_to_from_bits(bs.drop_last());
        assert(to_bits(from_bits(bs), bs.len()) =~= bs);
    }
}

/// Bit `k` of the `n`-bit encoding of `v`.
pub proof fn lemma_to_bits_index(v: nat, n: nat, k: nat)
    requires
        k < n,
    ensures
        to_bits(v, n)[k as int] == ((v / pow2((n - 1 - k) as nat)) % 2 == 1),
    decreases n,
{
    let m = (n - 1) as nat;
    lemma_to_bits_len(v / 2, m);
    if k == m {
        assert(pow2(0) == 1) by {
            lemma2_to64();
        }
        assert(v / 1 == v);
    } else {
        lemma_to_bits_index(v / 2, m, k);
        assert(to_bits(v, n)[k as int] == to_bits(v / 2, m)[k as int]);
        let e = (m - 1 - k) as nat;
        lemma_pow2_unfold((e + 1) as nat);
        lemma_pow2_pos(e);
        lemma_div_denominator(v as int, 2, pow2(e) as int);
        assert((n - 1 - k) as nat == (e + 1) as nat);
    }
}

pub proof fn lemma_flatten_len(vals: Seq<nat>, n: nat)
    ensures
        flatten_bits(vals, n).len() == n * vals.len(),
    decreases vals.len(),
{
    if vals.len() > 0 {
        lemma_flatten_len(vals.drop_first(), n);
        lemma_to_bits_len(vals[0], n);
        lemma_mul_is_distributive_add(n as int, 1, (vals.len() - 1) as int);
    }
}

/// Appending a value at the end appends its encoding to the stream.
pub proof fn lemma_flatten_push(vals: Seq<nat>, v: nat, n: nat)
    ensures
        flatten_bits(vals.push(v), n) == flatten_bits(vals, n) + to_bits(v, n),
    decreases vals.len(),
{
    if vals.len() == 0 {
        assert(vals.push(v).drop_first() =~= Seq::<nat>::empty());
        assert(vals.push(v)[0] == v);
        assert(flatten_bits(Seq::<nat>::empty(), n) =~= Seq::<bool>::empty());
        assert(flatten_bits(vals, n) =~= Seq::<bool>::empty());
        assert(flatten_bits(vals.push(v), n) =~= to_bits(v, n));
    } else {
        assert(vals.push(v).drop_first() =~= vals.drop_first().push(v));
        lemma_flatten_push(vals.drop_first(), v, n);
        assert(flatten_bits(vals.push(v), n) =~= flatten_bits(vals, n) + to_bits(v, n));
    }
}

/// Bit `n * i + k` of a stream is bit `k` of the `i`-th value.
pub proof fn lemma_flatten_index(vals: Seq<nat>, n: nat, i: int, k: int)
    requires
        0 <= i < vals.len(),
        0 <= k < n,
    ensures
        flatten_bits(vals, n).len() == n * vals.len(),
        n * i + k < n * vals.len(),
        flatten_bits(vals, n)[n * i + k] == to_bits(vals[i], n)[k],
    decreases i,
{
    lemma_flatten_len(vals, n);
    lemma_to_bits_len(vals[0], n);
    lemma_mul_inequality(i + 1, vals.len() as int, n as int);
    lemma_mul_is_distributive_add(n as int, i, 1);
    lemma_mul_is_commutative(n as int, i + 1);
    lemma_mul_is_commutative(n as int, vals.len() as int);
    if i > 0 {
        lemma_flatten_index(vals.drop_first(), n, i - 1, k);
        lemma_mul_is_distributive_add(n as int, i - 1, 1);
    }
}

/// Dropping the first `a` values drops their bits from the stream.
pub proof fn lemma_flatten_skip(vals: Seq<nat>, n: nat, a: int)
    requires
        0 <= a <= vals.len(),
    ensures
        flatten_bits(vals.skip(a), n) == flatten_bits(vals, n).skip(n * a),
    decreases a,
{
    lemma_flatten_len(vals, n);
    if a == 0 {
        assert(vals.skip(0) =~= vals);
        lemma_mul_by_zero_is_zero(n as int);
        assert(flatten_bits(vals, n).skip(0) =~= flatten_bits(vals, n));
    } else {
        lemma_to_bits_len(vals[0], n);
        assert(vals.skip(a) =~= vals.drop_first().skip(a - 1));
        lemma_flatten_skip(vals.drop_first(), n, a - 1);
        lemma_mul_is_distributive_add(n as int, 1, a - 1);
        lemma_mul_inequality(a, vals.len() as int, n as int);
        lemma_mul_is_commutative(n as int, a);
        lemma_mul_is_commutative(n as int, vals.len() as int);
        lemma_mul_nonnegative(n as int, a - 1);
        assert(n * a == n + n * (a - 1));
        assert(flatten_bits(vals, n) == to_bits(vals[0], n) + flatten_bits(vals.drop_first(), n));
        assert(flatten_bits(vals.drop_first(), n).skip(n * (a - 1)) =~= flatten_bits(vals, n).skip(
            n * a,
        ));
    }
}

/// Regrouping the stream of values that fit in `n` bits gives the values back.
pub proof fn lemma_group_flatten(vals: Seq<nat>, n: nat)
    requires
        n > 0,
        all_fit(vals, n),
    ensures
        group_bits(flatten_bits(vals, n), n) == vals,
    decreases vals.len(),
{
    let s = flatten_bits(vals, n);
    if vals.len() == 0 {
        assert(group_bits(s, n) =~= vals);
    } else {
        let rest = vals.drop_first();
        lemma_to_bits_len(vals[0], n);
        lemma_flatten_len(rest, n);
        assert(s.take(n as int) =~= to_bits(vals[0], n));
        assert(s.skip(n as int) =~= flatten_bits(rest, n));
        lemma_from_to_bits(vals[0], n);
        lemma_small_mod(vals[0], pow2(n));
        assert(all_fit(rest, n)) by {
            assert forall|i: int| 0 <= i < rest.len() implies #[trigger] rest[i] < pow2(n) by {
                assert(rest[i] == vals[i + 1]);
            }
        }
        lemma_group_flatten(rest, n);
        assert(group_bits(s, n) =~= vals);
    }
}

/// The groups of a stream all fit in `n` bits.
pub proof fn lemma_group_fit(bs: Seq<bool>, n: nat)
    ensures
        all_fit(group_bits(bs, n), n),
    decreases bs.len(),
{
    if n > 0 && bs.len() >= n {
        lemma_group_fit(bs.skip(n as int), n);
        lemma_from_bits_bound(bs.take(n as int));
        let g = group_bits(bs, n);
        assert forall|i: int| 0 <= i < g.len() implies #[trigger] g[i] < pow2(n) by {
            if i > 0 {
                assert(g[i] == group_bits(bs.skip(n as int), n)[i - 1]);
            }
        }
    }
}

/// Number of groups: the whole `n`-bit groups of the stream.
pub proof fn lemma_group_len(bs: Seq<bool>, n: nat)
    requires
        n > 0,
    ensures
        group_bits(bs, n).len() == bs.len() as int / (n as int),
    decreases bs.len(),
{
    if bs.len() < n {
        lemma_basic_div(bs.len() as int, n as int);
    } else {
        lemma_group_len(bs.skip(n as int), n);
        lemma_div_plus_one((bs.len() - n) as int, n as int);
    }
}

/// Writing back the groups of a stream whose length is a multiple of `n`
/// gives the stream.
pub proof fn lemma_flatten_group(bs: Seq<bool>, n: nat)
    requires
        n > 0,
        bs.len() as int % (n as int) == 0,
    ensures
        flatten_bits(group_bits(bs, n), n) == bs,
    decreases bs.len(),
{
    if bs.len() == 0 {
        assert(flatten_bits(group_bits(bs, n), n) =~= bs);
    } else {
        if bs.len() < n {
            lemma_small_mod(bs.len(), n);
        }
        let g = group_bits(bs, n);
        assert(g.drop_first() =~= group_bits(bs.skip(n as int), n));
        lemma_mod_sub_multiples_vanish(bs.len() as int, n as int);
        lemma_flatten_group(bs.skip(n as int), n);
        lemma_to_from_bits(bs.take(n as int));
        assert(flatten_bits(g, n) =~= bs);
    }
}

/// Groups of a stream followed by a whole group: one more group at the end.
pub proof fn lemma_group_append(bs: Seq<bool>, c: Seq<bool>, n: nat)
    requires
        n > 0,
        bs.len() as int % (n as int) == 0,
        c.len() == n,
    ensures
        group_bits(bs + c, n) == group_bits(bs, n).push(from_bits(c)),
    decreases bs.len(),
{
    if bs.len() == 0 {
        assert(bs + c =~= c);
        assert(c.take(n as int) =~= c);
        assert(group_bits(c.skip(n as int), n) =~= Seq::<nat>::empty());
        assert(group_bits(c, n) =~= seq![from_bits(c)]);
        assert(group_bits(bs, n) =~= Seq::<nat>::empty());
        assert(group_bits(bs + c, n) =~= group_bits(bs, n).push(from_bits(c)));
    } else {
        if bs.len() < n {
            lemma_small_mod(bs.len(), n);
        }
        lemma_mod_sub_multiples_vanish(bs.len() as int, n as int);
        assert((bs + c).take(n as int) =~= bs.take(n as int));
        assert((bs + c).skip(n as int) =~= bs.skip(n as int) + c);
        lemma_group_append(bs.skip(n as int), c, n);
        assert(group_bits(bs + c, n) =~= group_bits(bs, n).push(from_bits(c)));
    }
}

/// Bits after the last whole group do not change the groups.
pub proof fn lemma_group_partial(bs: Seq<bool>, c: Seq<bool>, n: nat)
    requires
        n > 0,
        bs.len() as int % (n as int) == 0,
        c.len() < n,
    ensures
        group_bits(bs + c, n) == group_bits(bs, n),
    decreases bs.len(),
{
    if bs.len() == 0 {
        assert(bs + c =~= c);
        assert(group_bits(bs + c, n) =~= group_bits(bs, n));
    } else {
        if bs.len() < n {
            lemma_small_mod(bs.len(), n);
        }
        lemma_mod_sub_multiples_vanish(bs.len() as int, n as int);
        assert((bs + c).take(n as int) =~= bs.take(n as int));
        assert((bs + c).skip(n as int) =~= bs.skip(n as int) + c);
        lemma_group_partial(bs.skip(n as int), c, n);
    }
}

} // verus!
