//! Symbol indices of multiple frequency shift keying: the input is a sequence
//! of bits (one byte per bit, any non-zero byte being a one), cut into groups
//! of `bit_per_symbol` bits; each group, least significant bit first, is the
//! index of the frequency to send.
use vstd::prelude::*;
use vstd::arithmetic::power2::*;
use vstd::arithmetic::div_mod::*;
use vstd::arithmetic::mul::*;
use vstd::slice::slice_subrange;

verus! {

/// The number that a group of bits writes, least significant bit first.
pub open spec fn lsb_value(bits: Seq<u8>) -> nat
    decreases bits.len(),
{
    if bits.len() == 0 {
        0
    } else {
        (if bits[0] != 0 {
            1nat
        } else {
            0nat
        }) + 2 * lsb_value(bits.drop_first())
    }
}

/// The indices of the successive groups of `k` bits; the last group may be shorter.
pub open spec fn group_indices(bits: Seq<u8>, k: nat) -> Seq<nat>
    decreases bits.len(),
{
    if bits.len() == 0 || k == 0 {
        Seq::empty()
    } else if bits.len() <= k {
        seq![lsb_value(bits)]
    } else {
        seq![lsb_value(bits.take(k as int))] + group_indices(bits.skip(k as int), k)
    }
}

/// Bit `t` of a group weighs `2^t`: one more bit at the end of a group adds
/// `2^len` when it is a one and nothing when it is a zero.
pub proof fn lemma_lsb_value_push(bits: Seq<u8>, b: u8)
    ensures
        lsb_value(bits.push(b)) == lsb_value(bits) + (if b != 0 {
            pow2(bits.len())
        } else {
            0
        }),
    decreases bits.len(),
{
    let bit: nat = if b != 0 {
        1
    } else {
        0
    };
    if bits.len() == 0 {
        assert(bits.push(b).drop_first() =~= Seq::<u8>::empty());
        assert(lsb_value(Seq::<u8>::empty()) == 0);
        assert(lsb_value(bits) == 0);
        assert(bits.push(b)[0] == b);
        assert(pow2(0) == 1) by {
            lemma2_to64();
        }
        assert(lsb_value(bits.push(b)) == bit);
    } else {
        let rest = bits.drop_first();
        assert(bits.push(b).drop_first() =~= rest.push(b));
        assert(bits.push(b)[0] == bits[0]);
        lemma_lsb_value_push(rest, b);
        lemma_pow2_unfold(bits.len());
        assert(pow2(bits.len()) == 2 * pow2(rest.len()));
        assert(lsb_value(bits.push(b)) == (if bits[0] != 0 {
            1nat
        } else {
            0nat
        }) + 2 * lsb_value(rest.push(b)));
    }
}

/// Every group of `k` bits, the last and possibly shorter one included, is
/// read least significant bit first: group `j` is bits `j * k` up to
/// `(j + 1) * k` (or the end of the input), and there are as many groups as
/// `k` goes into the length, rounded up.
pub proof fn lemma_group_indices(bits: Seq<u8>, k: nat, j: int)
    requires
        k > 0,
        0 <= j,
        j * k < bits.len(),
    ensures
        group_indices(bits, k).len() == (bits.len() + k - 1) as int / (k as int),
        j < group_indices(bits, k).len(),
        group_indices(bits, k)[j] == lsb_value(
            bits.subrange(
                j * k,
                if (j + 1) * k < bits.len() {
                    (j + 1) * k
                } else {
                    bits.len() as int
                },
            ),
        ),
    decreases bits.len(),
{
    lemma_group_indices_len(bits, k);
    lemma_mul_is_distributive_add_other_way(k as int, j, 1);
    if bits.len() <= k {
        if j > 0 {
            lemma_mul_inequality(1, j, k as int);
        }
        assert(j == 0);
        assert(bits.subrange(0, bits.len() as int) =~= bits);
    } else if j == 0 {
        assert(bits.subrange(0, k as int) =~= bits.take(k as int));
    } else {
        let rest = bits.skip(k as int);
        lemma_mul_is_distributive_sub_other_way(k as int, j, 1);
        lemma_group_indices(rest, k, j - 1);
        let lo = (j - 1) * k;
        let hi = if j * k < rest.len() {
            j * k
        } else {
            rest.len() as int
        };
        assert(rest.subrange(lo, hi) =~= bits.subrange(
            j * k,
            if (j + 1) * k < bits.len() {
                (j + 1) * k
            } else {
                bits.len() as int
            },
        ));
    }
}

/// Number of groups: the length divided by `k`, rounded up.
proof fn lemma_group_indices_len(bits: Seq<u8>, k: nat)
    requires
        k > 0,
    ensures
        group_indices(bits, k).len() == (bits.len() + k - 1) as int / (k as int),
    decreases bits.len(),
{
    if bits.len() == 0 {
        lemma_basic_div((k - 1) as int, k as int);
    } else if bits.len() <= k {
        lemma_fundamental_div_mod_converse((bits.len() + k - 1) as int, k as int, 1, (bits.len() - 1) as int);
    } else {
        lemma_group_indices_len(bits.skip(k as int), k);
        lemma_div_plus_one((bits.len() - k + k - 1) as int, k as int);
    }
}

/// The index written by a group of bits, least significant bit first.
pub fn bits_to_index(bits: &[u8]) -> (res: usize)
    requires
        bits@.len() <= usize::BITS,
    ensures
        res == lsb_value(bits@),
{
    let len = bits.len();
    let mut i: usize = len;
    let mut res: usize = 0;
    proof {
        lemma2_to64();
        lemma2_to64_rest();
        assert(bits@.skip(len as int) =~= Seq::<u8>::empty());
        if len < usize::BITS {
            lemma_pow2_strictly_increases(len as nat, usize::BITS as nat);
        }
        assert(pow2(0) == 1) by {
            lemma2_to64();
        }
    }
    while i > 0
        invariant
            i <= len,
            len == bits@.len(),
            len <= usize::BITS,
            pow2(len as nat) <= usize::MAX + 1,
            res == lsb_value(bits@.skip(i as int)),
            res < pow2((len - i) as nat),
        decreases i,
    {
        i -= 1;
        proof {
            assert(bits@.skip(i as int).drop_first() =~= bits@.skip(i + 1));
            lemma_pow2_unfold((len - i) as nat);
            if len - i < len {
                lemma_pow2_strictly_increases((len - i) as nat, len as nat);
            }
        }
        let bit: usize = if bits[i] != 0 {
            1
        } else {
            0
        };
        res = bit + 2 * res;
    }
    proof {
        assert(bits@.skip(0) =~= bits@);
    }
    res
}

/// The frequency indices for `input`: its bits cut into groups of
/// `bit_per_symbol`, the last group possibly shorter.
pub fn bit_groups_to_indices(input: &Vec<u8>, bit_per_symbol: usize) -> (res: Vec<usize>)
    requires
        0 < bit_per_symbol <= usize::BITS,
    ensures
        res@.map_values(|v: usize| v as nat) == group_indices(input@, bit_per_symbol as nat),
{
    let k = bit_per_symbol;
    let mut out: Vec<usize> = Vec::new();
    if input.len() == 0 {
        assert(out@.map_values(|v: usize| v as nat) =~= group_indices(input@, k as nat));
        return out;
    }
    let mut i: usize = 0;
    assert(input@.skip(0) =~= input@);
    loop
        invariant_except_break
            0 < k <= usize::BITS,
            i < input@.len(),
            out@.map_values(|v: usize| v as nat) + group_indices(input@.skip(i as int), k as nat)
                == group_indices(input@, k as nat),
        ensures
            out@.map_values(|v: usize| v as nat) == group_indices(input@, k as nat),
        decreases input@.len() - i,
    {
        let ghost rest = input@.skip(i as int);
        let ghost before = out@;
        if input.len() - i <= k {
            let group = slice_subrange(input.as_slice(), i, input.len());
            assert(group@ =~= rest);
            let v = bits_to_index(group);
            out.push(v);
            assert(out@.map_values(|v: usize| v as nat) =~= before.map_values(|v: usize| v as nat)
                + group_indices(rest, k as nat));
            break;
        }
        let group = slice_subrange(input.as_slice(), i, i + k);
        assert(group@ =~= rest.take(k as int));
        let v = bits_to_index(group);
        out.push(v);
        assert(rest.skip(k as int) =~= input@.skip(i + k));
        i = i + k;
        assert(out@.map_values(|v: usize| v as nat) =~= before.map_values(|v: usize| v as nat)
            + seq![lsb_value(rest.take(k as int))]);
    }
    out
}

} // verus!
