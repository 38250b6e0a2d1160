//! Counting the bit errors between the bytes sent and the bytes received.
use vstd::prelude::*;
use vstd::arithmetic::power2::*;
use vstd::bits::{lemma_u32_pow2_no_overflow, lemma_u32_shl_is_mul};
use crate::bits::bit_distance;

verus! {

/// Bit errors between two byte sequences, byte by byte as far as the shorter
/// one goes, counting all 8 bits of each byte.
pub open spec fn bit_errors(sent: Seq<u8>, received: Seq<u8>) -> nat
    decreases sent.len(),
{
    if sent.len() == 0 || received.len() == 0 {
        0
    } else {
        bit_distance(sent[0] as nat, received[0] as nat, 8) + bit_errors(
            sent.drop_first(),
            received.drop_first(),
        )
    }
}

/// Number of ones among the `w` lowest bits of `x`.
pub open spec fn ones_below(x: u8, w: nat) -> nat
    decreases w,
{
    if w == 0 {
        0
    } else {
        ((x >> ((w - 1) as u8)) & 1u8) as nat + ones_below(x, (w - 1) as nat)
    }
}

/// The top one of the `v + 1` lowest bits of two bytes differs exactly when
/// it is set in their exclusive or.
proof fn lemma_top_bit(a: u32, b: u32, v: u32)
    by (bit_vector)
    requires
        v < 8,
        a < 256,
        b < 256,
    ensures
        (((a % (2u32 << v)) / (1u32 << v)) % 2 != ((b % (2u32 << v)) / (1u32 << v)) % 2) == (((
        a ^ b) >> v) & 1u32 == 1u32),
        (a % (2u32 << v)) % (1u32 << v) == a % (1u32 << v),
        (b % (2u32 << v)) % (1u32 << v) == b % (1u32 << v),
        (a ^ b) < 256,
{
}

/// Among their `w` lowest bits, two bytes differ in as many bits as their
/// exclusive or has ones.
proof fn lemma_low_bits_differ(a: u8, b: u8, w: nat)
    requires
        w <= 8,
    ensures
        bit_distance(a as nat % pow2(w), b as nat % pow2(w), w) == ones_below(a ^ b, w),
    decreases w,
{
    lemma_u32_pow2_no_overflow(w);
    if w > 0 {
        let v = (w - 1) as nat;
        lemma_low_bits_differ(a, b, v);
        lemma_u32_pow2_no_overflow(v);
        lemma_pow2_unfold(w);
        let v8: u8 = v as u8;
        let v32: u32 = v as u32;
        lemma_u32_shl_is_mul(1, v32);
        lemma_u32_shl_is_mul(2, v32);
        let p = pow2(v);
        let au = a as u32;
        let bu = b as u32;
        assert((1u32 << v32) == p);
        assert((2u32 << v32) == pow2(w));
        lemma_top_bit(au, bu, v32);
        let aa = a as nat % pow2(w);
        let bb = b as nat % pow2(w);
        assert(aa == (au % (2u32 << v32)) as nat);
        assert(bb == (bu % (2u32 << v32)) as nat);
        assert(aa % p == a as nat % p);
        assert(bb % p == b as nat % p);
        assert(((au ^ bu) >> v32) & 1u32 == (((a ^ b) >> v8) & 1u8) as u32 && (((a ^ b) >> v8)
            & 1u8) <= 1u8) by (bit_vector)
            requires
                v8 < 8,
                v32 == v8 as u32,
                au == a as u32,
                bu == b as u32,
        ;
        assert(bit_distance(aa, bb, w) == (if (aa / p) % 2 != (bb / p) % 2 {
            1nat
        } else {
            0nat
        }) + bit_distance(aa % p, bb % p, v));
        assert(ones_below(a ^ b, w) == (((a ^ b) >> v8) & 1u8) as nat + ones_below(a ^ b, v));
    }
}

/// The bit errors of one byte are the ones of `sent ^ received`: each of the
/// 8 bits counts once, none other.
pub proof fn lemma_byte_errors_are_differing_bits(a: u8, b: u8)
    ensures
        bit_distance(a as nat, b as nat, 8) == ones_below(a ^ b, 8),
        bit_distance(a as nat, b as nat, 8) <= 8,
        (bit_distance(a as nat, b as nat, 8) == 0) == (a == b),
{
    lemma_low_bits_differ(a, b, 8);
    lemma2_to64();
    assert(a as nat % 256 == a);
    assert(b as nat % 256 == b);
    reveal_with_fuel(ones_below, 9);
    assert((((a ^ b) >> 0u8) & 1u8) + (((a ^ b) >> 1u8) & 1u8) + (((a ^ b) >> 2u8) & 1u8) + (((a
        ^ b) >> 3u8) & 1u8) + (((a ^ b) >> 4u8) & 1u8) + (((a ^ b) >> 5u8) & 1u8) + (((a ^ b)
        >> 6u8) & 1u8) + (((a ^ b) >> 7u8) & 1u8) <= 8 && (((((a ^ b) >> 0u8) & 1u8) + (((a ^ b)
        >> 1u8) & 1u8) + (((a ^ b) >> 2u8) & 1u8) + (((a ^ b) >> 3u8) & 1u8) + (((a ^ b) >> 4u8)
        & 1u8) + (((a ^ b) >> 5u8) & 1u8) + (((a ^ b) >> 6u8) & 1u8) + (((a ^ b) >> 7u8) & 1u8)
        == 0) == (a == b))) by (bit_vector);
}

/// Bit errors add up over the byte pairs: one more pair of bytes adds the bit
/// errors of that pair, whatever came before (a byte received correctly does
/// not end the count).
pub proof fn lemma_bit_errors_append(sent: Seq<u8>, received: Seq<u8>, a: u8, b: u8)
    requires
        sent.len() == received.len(),
    ensures
        bit_errors(sent.push(a), received.push(b)) == bit_errors(sent, received) + ones_below(
            a ^ b,
            8,
        ),
    decreases sent.len(),
{
    lemma_byte_errors_are_differing_bits(a, b);
    if sent.len() == 0 {
        assert(sent.push(a).drop_first() =~= Seq::<u8>::empty());
        assert(received.push(b).drop_first() =~= Seq::<u8>::empty());
        assert(bit_errors(Seq::<u8>::empty(), Seq::<u8>::empty()) == 0);
        assert(sent.push(a)[0] == a && received.push(b)[0] == b);
    } else {
        assert(sent.push(a).drop_first() =~= sent.drop_first().push(a));
        assert(received.push(b).drop_first() =~= received.drop_first().push(b));
        assert(sent.push(a)[0] == sent[0] && received.push(b)[0] == received[0]);
        lemma_bit_errors_append(sent.drop_first(), received.drop_first(), a, b);
    }
}

/// Bytes received exactly as they were sent have no bit error.
pub proof fn lemma_bit_errors_self(sent: Seq<u8>)
    ensures
        bit_errors(sent, sent) == 0,
    decreases sent.len(),
{
    if sent.len() > 0 {
        lemma_byte_errors_are_differing_bits(sent[0], sent[0]);
        lemma_bit_errors_self(sent.drop_first());
    }
}

/// Only the byte pairs count: bytes beyond the shorter sequence add nothing.
pub proof fn lemma_bit_errors_pairs(sent: Seq<u8>, received: Seq<u8>)
    ensures
        ({
            let m = if sent.len() < received.len() {
                sent.len()
            } else {
                received.len()
            };
            bit_errors(sent, received) == bit_errors(sent.take(m as int), received.take(m as int))
        }),
    decreases sent.len(),
{
    if sent.len() > 0 && received.len() > 0 {
        lemma_bit_errors_pairs(sent.drop_first(), received.drop_first());
        let m = if sent.len() < received.len() {
            sent.len()
        } else {
            received.len()
        };
        assert(sent.take(m as int).drop_first() =~= sent.drop_first().take(m - 1));
        assert(received.take(m as int).drop_first() =~= received.drop_first().take(m - 1));
    } else {
        assert(sent.take(0) =~= Seq::<u8>::empty());
        assert(received.take(0) =~= Seq::<u8>::empty());
    }
}

/// Number of bits where two bytes differ.
fn byte_bit_errors(a: u8, b: u8) -> (res: u8)
    ensures
        res == bit_distance(a as nat, b as nat, 8),
        res <= 8,
{
    let mut x = a;
    let mut y = b;
    let mut w: u8 = 8;
    let mut p: u8 = 128;
    let mut count: u8 = 0;
    proof {
        lemma2_to64();
    }
    while w > 0
        invariant
            w <= 8,
            count <= 8 - w,
            w > 0 ==> p == pow2((w - 1) as nat),
            count + bit_distance(x as nat, y as nat, w as nat) == bit_distance(
                a as nat,
                b as nat,
                8,
            ),
        decreases w,
    {
        proof {
            lemma2_to64();
            if w > 1 {
                lemma_pow2_unfold((w - 1) as nat);
            }
        }
        if (x / p) % 2 != (y / p) % 2 {
            count += 1;
        }
        x = x % p;
        y = y % p;
        w -= 1;
        p = p / 2;
    }
    count
}

/// Number of bit errors between the bytes sent and the bytes received: for
/// each pair of bytes, as far as the shorter sequence goes, the number of
/// their bits that differ.  Divided by 8 bits per byte it gives the bit
/// error rate.
pub fn count_bit_errors(sent: &Vec<u8>, received: &Vec<u8>) -> (res: usize)
    requires
        bit_errors(sent@, received@) <= usize::MAX,
    ensures
        res == bit_errors(sent@, received@),
{
    let n = if sent.len() < received.len() {
        sent.len()
    } else {
        received.len()
    };
    let mut total: usize = 0;
    let mut i: usize = 0;
    assert(sent@.skip(0) =~= sent@);
    assert(received@.skip(0) =~= received@);
    while i < n
        invariant
            n == sent@.len() || n == received@.len(),
            n <= sent@.len(),
            n <= received@.len(),
            i <= n,
            bit_errors(sent@, received@) <= usize::MAX,
            total + bit_errors(sent@.skip(i as int), received@.skip(i as int)) == bit_errors(
                sent@,
                received@,
            ),
        decreases n - i,
    {
        let e = byte_bit_errors(sent[i], received[i]);
        proof {
            assert(sent@.skip(i as int).drop_first() =~= sent@.skip(i + 1));
            assert(received@.skip(i as int).drop_first() =~= received@.skip(i + 1));
        }
        total = total + e as usize;
        i += 1;
    }
    total
}

} // verus!
