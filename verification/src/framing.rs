//! How bytes become a signal and back, whatever the modulation.
//!
//! A modulated signal is: the synchronisation waveform, then (optionally) the
//! length of the payload as a little-endian `u32` written with the modulation's
//! symbols, then the payload's symbols.  Each symbol is one waveform of the
//! modulation's table of waveforms.
//!
//! The waveforms themselves, the synchronisation search and the decision of
//! which waveform a piece of received signal is are the modulation's own
//! numeric work; the functions here take their results as arguments.
use vstd::prelude::*;
use vstd::arithmetic::div_mod::*;
use vstd::arithmetic::mul::*;
use vstd::arithmetic::power2::*;
use crate::bits::{all_fit, pack_symbols, symbol_values, unpack_bytes};
use crate::symbols::{
    collect_bytes_from_raw_bytes, concat_waveforms, lemma_unpack_then_pack, DemodErr, ModErr,
    RawSymbols,
};

verus! {

/// The four little-endian bytes of `x`.
pub open spec fn le_bytes(x: u32) -> Seq<u8> {
    seq![
        (x % 0x100) as u8,
        ((x / 0x100) % 0x100) as u8,
        ((x / 0x10000) % 0x100) as u8,
        (x / 0x1000000) as u8,
    ]
}

/// The number that four little-endian bytes write.
pub open spec fn le_value(b: Seq<u8>) -> nat
    recommends
        b.len() == 4,
{
    b[0] as nat + 0x100 * b[1] as nat + 0x10000 * b[2] as nat + 0x1000000 * b[3] as nat
}

/// The symbols of the length header announcing `len` bytes.
pub open spec fn header_symbols(len: u32, n: nat) -> Seq<usize> {
    unpack_bytes(le_bytes(len), n)
}

/// `x / n` rounded up.
pub open spec fn ceil_div(x: nat, n: nat) -> nat
    recommends
        n > 0,
{
    (x + n - 1) as nat / n
}

/// `ceil_div(x, n)` is the fewest groups of `n` that cover `x`: they cover it,
/// and one group less would not.
pub proof fn lemma_ceil_div(x: nat, n: nat)
    requires
        n > 0,
    ensures
        ceil_div(x, n) * n >= x,
        ceil_div(x, n) * n < x + n,
{
    lemma_fundamental_div_mod((x + n - 1) as int, n as int);
    lemma_mod_bound((x + n - 1) as int, n as int);
    lemma_mul_is_commutative(n as int, ceil_div(x, n) as int);
}

/// Samples taken by the length header: one symbol per `n` bits of a `u32`,
/// rounded up, `sps` samples per symbol.
pub open spec fn header_sample_count(n: nat, sps: nat) -> nat {
    ceil_div(32, n) * sps
}

/// Samples taken by a payload of `len` bytes.
pub open spec fn payload_sample_count(len: nat, n: nat, sps: nat) -> nat {
    ceil_div(8 * len, n) * sps
}

/// The error that packing `raw` symbols of `n` bits reports, if any.
pub open spec fn packing_error(raw: Seq<usize>, n: nat) -> Option<Seq<char>> {
    if raw.len() == 0 || n == 0 {
        Some("You tried to convert an empty vec of signals or used 0 as number of bit per signal"@)
    } else if !all_fit(symbol_values(raw), n) {
        Some("You are trying to convert and incorrect symbol"@)
    } else {
        None
    }
}

/// The symbols can be drawn: each names a waveform of the table, and they can
/// be read (at most 32 bits each) whenever there is one.
pub open spec fn drawable<T>(indices: Seq<usize>, n: nat, table: Seq<Vec<T>>) -> bool {
    &&& (n <= 32 || indices.len() == 0)
    &&& forall|i: int| 0 <= i < indices.len() ==> #[trigger] indices[i] < table.len()
}

/// The signal that `module` produces from `input`, when it succeeds.
pub open spec fn modulated<T>(
    input: Seq<u8>,
    n: nat,
    table: Seq<Vec<T>>,
    sync: Seq<T>,
    use_expected_bytes: bool,
) -> Seq<T> {
    sync + (if use_expected_bytes {
        concat_waveforms(header_symbols(input.len() as u32, n), table)
    } else {
        Seq::empty()
    }) + concat_waveforms(unpack_bytes(input, n), table)
}

/// The little-endian bytes of `x`.
pub fn u32_to_le_bytes(x: u32) -> (res: Vec<u8>)
    ensures
        res@ == le_bytes(x),
{
    vec![
        (x % 0x100) as u8,
        ((x / 0x100) % 0x100) as u8,
        ((x / 0x10000) % 0x100) as u8,
        (x / 0x1000000) as u8,
    ]
}

/// The number that four little-endian bytes write.
pub fn u32_from_le_bytes(bytes: &Vec<u8>) -> (res: u32)
    requires
        bytes@.len() == 4,
    ensures
        res == le_value(bytes@),
{
    bytes[0] as u32 + 0x100 * bytes[1] as u32 + 0x10000 * bytes[2] as u32 + 0x1000000
        * bytes[3] as u32
}

/// Writing a number as little-endian bytes and reading them back gives the number.
pub proof fn lemma_le_roundtrip(x: u32)
    ensures
        le_value(le_bytes(x)) == x,
{
}

/// Reading four bytes as a little-endian number and writing it back gives the bytes.
pub proof fn lemma_le_bytes_of_value(b: Seq<u8>)
    requires
        b.len() == 4,
    ensures
        le_value(b) <= u32::MAX,
        le_bytes(le_value(b) as u32) == b,
{
    let v = le_value(b) as int;
    let (b0, b1, b2, b3) = (b[0] as int, b[1] as int, b[2] as int, b[3] as int);
    let hi1 = b1 + 0x100 * b2 + 0x10000 * b3;
    let hi2 = b2 + 0x100 * b3;
    lemma_fundamental_div_mod_converse(v, 0x100, hi1, b0);
    lemma_fundamental_div_mod_converse(hi1, 0x100, hi2, b1);
    lemma_fundamental_div_mod_converse(hi2, 0x100, b3, b2);
    lemma_fundamental_div_mod_converse(v, 0x10000, hi2, b0 + 0x100 * b1);
    lemma_fundamental_div_mod_converse(v, 0x1000000, b3, b0 + 0x100 * b1 + 0x10000 * b2);
    assert(le_bytes(le_value(b) as u32) =~= b);
}

/// Appends a copy of every sample of `src`.
fn extend_copied<T: Copy>(out: &mut Vec<T>, src: &Vec<T>)
    ensures
        final(out)@ == old(out)@ + src@,
{
    let ghost start = out@;
    let mut j: usize = 0;
    while j < src.len()
        invariant
            0 <= j <= src@.len(),
            out@ == start + src@.take(j as int),
        decreases src@.len() - j,
    {
        out.push(src[j]);
        j += 1;
        assert(out@ =~= start + src@.take(j as int));
    }
    assert(src@.take(src@.len() as int) =~= src@);
}

/// Modulates `input`: the synchronisation waveform, then (if
/// `use_expected_bytes`) the length of `input` as a little-endian `u32`, then
/// the bytes of `input`, each written with symbols of `bit_per_symbol` bits
/// whose waveforms are `symbols`.
///
/// Fails with `InvalidInput` when the header or the input cannot be cut into
/// whole symbols.
pub fn module<T: Copy>(
    input: &Vec<u8>,
    bit_per_symbol: u8,
    symbols: &[Vec<T>],
    sync: &Vec<T>,
    use_expected_bytes: bool,
) -> (res: Result<Vec<T>, ModErr>)
    requires
        bit_per_symbol > 0,
        input@.len() * 8 <= usize::MAX,
        (use_expected_bytes && 32int % (bit_per_symbol as int) == 0) ==> drawable(
            header_symbols(input@.len() as u32, bit_per_symbol as nat),
            bit_per_symbol as nat,
            symbols@,
        ),
        ((!use_expected_bytes || 32int % (bit_per_symbol as int) == 0) && (input@.len() * 8) as int
            % (bit_per_symbol as int) == 0) ==> drawable(
            unpack_bytes(input@, bit_per_symbol as nat),
            bit_per_symbol as nat,
            symbols@,
        ),
    ensures
        res is Ok <==> (!use_expected_bytes || 32int % (bit_per_symbol as int) == 0) && (input@.len()
            * 8) as int % (bit_per_symbol as int) == 0,
        res matches Ok(v) ==> v@ == modulated(
            input@,
            bit_per_symbol as nat,
            symbols@,
            sync@,
            use_expected_bytes,
        ),
        res matches Err(e) ==> e == ModErr::InvalidInput,
{
    let mut n_bytes_signal: Vec<T> = Vec::new();
    if use_expected_bytes {
        let header = u32_to_le_bytes(input.len() as u32);
        match RawSymbols::try_get_symbols(&header, bit_per_symbol) {
            Ok(raw) => {
                n_bytes_signal = raw.to_signal_vec(symbols);
            },
            Err(_) => {
                return Err(ModErr::InvalidInput);
            },
        }
    }
    let raw_symbols = match RawSymbols::try_get_symbols(input, bit_per_symbol) {
        Ok(raw) => raw,
        Err(_) => {
            return Err(ModErr::InvalidInput);
        },
    };
    let modulated_signal = raw_symbols.to_signal_vec(symbols);
    let mut out: Vec<T> = Vec::new();
    extend_copied(&mut out, sync);
    extend_copied(&mut out, &n_bytes_signal);
    extend_copied(&mut out, &modulated_signal);
    proof {
        assert(Seq::<T>::empty() + sync@ =~= sync@);
    }
    Ok(out)
}

/// Number of samples that hold the length header: one symbol per
/// `bit_per_symbol` bits of a `u32`, rounded up, `samples_per_symbol` samples
/// each (`usize::MAX` when that does not fit).
pub fn header_samples(bit_per_symbol: u8, samples_per_symbol: usize) -> (res: usize)
    requires
        bit_per_symbol > 0,
    ensures
        res == if header_sample_count(bit_per_symbol as nat, samples_per_symbol as nat)
            <= usize::MAX {
            header_sample_count(bit_per_symbol as nat, samples_per_symbol as nat)
        } else {
            usize::MAX as nat
        },
{
    let symbols_count: usize = (31 + bit_per_symbol as usize) / bit_per_symbol as usize;
    match symbols_count.checked_mul(samples_per_symbol) {
        Some(v) => v,
        None => usize::MAX,
    }
}

proof fn lemma_ceil_div_bound(b: int, n: int)
    requires
        0 <= b,
        1 <= n,
    ensures
        (b + n - 1) / n <= b,
{
    assert((b + n - 1) / n <= b) by (nonlinear_arith)
        requires
            0 <= b,
            1 <= n,
    {
        lemma_fundamental_div_mod(b + n - 1, n);
        assert(n * ((b + n - 1) / n) <= b + n - 1);
    }
}

/// Number of samples that hold a payload of `expected_bytes` bytes.
pub fn expected_samples(expected_bytes: u32, bit_per_symbol: u8, samples_per_symbol: usize) -> (res:
    usize)
    requires
        bit_per_symbol > 0,
        8 * expected_bytes <= u32::MAX,
        payload_sample_count(expected_bytes as nat, bit_per_symbol as nat, samples_per_symbol as nat)
            <= usize::MAX,
    ensures
        res == payload_sample_count(
            expected_bytes as nat,
            bit_per_symbol as nat,
            samples_per_symbol as nat,
        ),
{
    let bits = 8 * expected_bytes;
    let symbols_count: u64 = (bits as u64 + bit_per_symbol as u64 - 1) / bit_per_symbol as u64;
    proof {
        lemma_ceil_div_bound(bits as int, bit_per_symbol as int);
    }
    let symbols_count = symbols_count as usize;
    symbols_count * samples_per_symbol
}

/// Cuts off the first `count` samples (the length header) and returns them.
pub fn split_header<T>(samples: &mut Vec<T>, count: usize) -> (header: Vec<T>)
    requires
        count <= old(samples)@.len(),
    ensures
        header@ == old(samples)@.take(count as int),
        final(samples)@ == old(samples)@.skip(count as int),
{
    let mut rest = samples.split_off(count);
    std::mem::swap(samples, &mut rest);
    rest
}

/// Keeps the first `expected` samples: the payload that the length header
/// announced.  Fails with `SmallerThanExpected`, leaving the samples as they
/// are, when there are fewer.
pub fn truncate_to_payload<T>(samples: &mut Vec<T>, expected: usize) -> (res: Result<(), DemodErr>)
    ensures
        res is Ok <==> expected <= old(samples)@.len(),
        res matches Ok(_) ==> final(samples)@ == old(samples)@.take(expected as int),
        res matches Err(e) ==> e == DemodErr::SmallerThanExpected && final(samples)@ == old(
            samples,
        )@,
{
    if expected > samples.len() {
        return Err(DemodErr::SmallerThanExpected);
    }
    let _rest = samples.split_off(expected);
    Ok(())
}

/// Packs demodulated symbols into bytes, reporting a packing failure as
/// `DemodErr::Other` with its message.
pub fn symbols_to_bytes(raw_bytes: Vec<usize>, bit_per_symbol: u8) -> (res: Result<
    Vec<u8>,
    DemodErr,
>)
    requires
        raw_bytes@.len() == 0 || bit_per_symbol == 0 || bit_per_symbol as u32 <= usize::BITS,
    ensures
        packing_error(raw_bytes@, bit_per_symbol as nat) matches Some(m) ==> (res matches Err(
            DemodErr::Other(s),
        ) && s@ == m),
        packing_error(raw_bytes@, bit_per_symbol as nat) is None ==> (res matches Ok(v) && v@
            == pack_symbols(raw_bytes@, bit_per_symbol as nat)),
{
    match collect_bytes_from_raw_bytes(raw_bytes, bit_per_symbol) {
        Ok(v) => Ok(v),
        Err(msg) => Err(DemodErr::Other(String::from_str(msg))),
    }
}

/// The number of bytes that demodulated header symbols announce: the symbols
/// packed into bytes, read as a little-endian number.
pub open spec fn announced_bytes(header: Seq<usize>, n: nat) -> nat {
    le_value(pack_symbols(header, n))
}

/// Demodulated header symbols can be read without overflow: whenever they
/// pack into bytes, they pack into the four bytes of a `u32`, its number of
/// bits fits a `u32`, and the samples of the announced payload fit a `usize`.
pub open spec fn header_in_limits(header: Seq<usize>, n: nat, sps: nat) -> bool {
    packing_error(header, n) is None ==> {
        &&& pack_symbols(header, n).len() == 4
        &&& 8 * announced_bytes(header, n) <= u32::MAX
        &&& payload_sample_count(announced_bytes(header, n), n, sps) <= usize::MAX
    }
}

/// Whether demodulated header symbols can be read without overflow (see
/// `header_in_limits`); reading a header outside these limits is a bug of the
/// caller, not an error of the signal.
pub fn header_within_limits(header: &Vec<usize>, bit_per_symbol: u8, samples_per_symbol: usize) -> (res:
    bool)
    requires
        0 < bit_per_symbol,
        bit_per_symbol as u32 <= usize::BITS,
    ensures
        res == header_in_limits(header@, bit_per_symbol as nat, samples_per_symbol as nat),
{
    let copy = header.clone();
    assert(copy@ =~= header@);
    match collect_bytes_from_raw_bytes(copy, bit_per_symbol) {
        Err(_) => true,
        Ok(bytes) => {
            if bytes.len() != 4 {
                return false;
            }
            let value = u32_from_le_bytes(&bytes);
            match value.checked_mul(8) {
                None => false,
                Some(bits) => {
                    let symbols_count: u64 = (bits as u64 + bit_per_symbol as u64 - 1)
                        / bit_per_symbol as u64;
                    proof {
                        lemma_ceil_div_bound(bits as int, bit_per_symbol as int);
                    }
                    (symbols_count as usize).checked_mul(samples_per_symbol).is_some()
                },
            }
        },
    }
}

/// Reads the length header from its demodulated symbols and gives the number
/// of samples of the payload it announces: the symbols are packed into bytes
/// (failing as packing fails), read as a little-endian number of bytes, and
/// turned into samples.  Fails with `SmallerThanExpected` when fewer samples
/// than that are `available`.
pub fn payload_samples(
    header: Vec<usize>,
    bit_per_symbol: u8,
    samples_per_symbol: usize,
    available: usize,
) -> (res: Result<usize, DemodErr>)
    requires
        0 < bit_per_symbol,
        bit_per_symbol as u32 <= usize::BITS,
        header_in_limits(header@, bit_per_symbol as nat, samples_per_symbol as nat),
    ensures
        packing_error(header@, bit_per_symbol as nat) matches Some(m) ==> (res matches Err(
            DemodErr::Other(s),
        ) && s@ == m),
        packing_error(header@, bit_per_symbol as nat) is None ==> ({
            let c = payload_sample_count(
                announced_bytes(header@, bit_per_symbol as nat),
                bit_per_symbol as nat,
                samples_per_symbol as nat,
            );
            &&& c <= available ==> res == Ok::<usize, DemodErr>(c as usize)
            &&& c > available ==> res == Err::<usize, DemodErr>(DemodErr::SmallerThanExpected)
        }),
{
    let bytes = match symbols_to_bytes(header, bit_per_symbol) {
        Ok(b) => b,
        Err(e) => {
            return Err(e);
        },
    };
    let expected_bytes = u32_from_le_bytes(&bytes);
    let expected = expected_samples(expected_bytes, bit_per_symbol, samples_per_symbol);
    if expected > available {
        Err(DemodErr::SmallerThanExpected)
    } else {
        Ok(expected)
    }
}

/// Index of a waveform of `table` equal to `chunk`.
pub open spec fn waveform_index<T>(chunk: Seq<T>, table: Seq<Vec<T>>) -> usize {
    choose|k: usize| (k as int) < table.len() && table[k as int]@ == chunk
}

/// What an ideal demodulator recovers from `samples`: for each piece of
/// `sps` samples, the index of the waveform of `table` that it is.
pub open spec fn ideal_symbols<T>(samples: Seq<T>, table: Seq<Vec<T>>, sps: nat) -> Seq<usize>
    decreases samples.len(),
{
    if sps == 0 || samples.len() < sps {
        Seq::empty()
    } else {
        seq![waveform_index(samples.take(sps as int), table)] + ideal_symbols(
            samples.skip(sps as int),
            table,
            sps,
        )
    }
}

/// Every waveform of the table has `sps` samples.
pub open spec fn uniform_waveforms<T>(table: Seq<Vec<T>>, sps: nat) -> bool {
    forall|i: int| 0 <= i < table.len() ==> (#[trigger] table[i])@.len() == sps
}

/// No two waveforms of the table are the same.
pub open spec fn distinct_waveforms<T>(table: Seq<Vec<T>>) -> bool {
    forall|i: int, j: int|
        0 <= i < table.len() && 0 <= j < table.len() && i != j ==> (#[trigger] table[i])@ != (
        #[trigger] table[j])@
}

/// An ideal demodulator recovers the symbols from their waveforms.
pub proof fn lemma_ideal_recovers<T>(indices: Seq<usize>, table: Seq<Vec<T>>, sps: nat)
    requires
        sps > 0,
        uniform_waveforms(table, sps),
        distinct_waveforms(table),
        forall|i: int| 0 <= i < indices.len() ==> #[trigger] indices[i] < table.len(),
    ensures
        concat_waveforms(indices, table).len() == indices.len() * sps,
        ideal_symbols(concat_waveforms(indices, table), table, sps) == indices,
    decreases indices.len(),
{
    let c = concat_waveforms(indices, table);
    if indices.len() == 0 {
        assert(ideal_symbols(c, table, sps) =~= indices);
    } else {
        let rest = indices.drop_first();
        let i0 = indices[0];
        lemma_ideal_recovers(rest, table, sps);
        let w = table[i0 as int]@;
        assert(table[i0 as int]@.len() == sps);
        lemma_mul_is_distributive_add(sps as int, 1, rest.len() as int);
        lemma_mul_is_commutative(sps as int, rest.len() as int);
        lemma_mul_is_commutative(sps as int, indices.len() as int);
        assert(c.take(sps as int) =~= w);
        assert(c.skip(sps as int) =~= concat_waveforms(rest, table));
        let k = waveform_index(w, table);
        assert((i0 as int) < table.len() && table[i0 as int]@ == w);
        assert((k as int) < table.len() && table[k as int]@ == w);
        assert(k == i0);
        assert(ideal_symbols(c, table, sps) =~= indices);
    }
}

/// `(x + n - 1) / n` is `x / n` when `n` divides `x`.
proof fn lemma_ceil_div_exact(x: nat, n: nat)
    requires
        n > 0,
        x as int % (n as int) == 0,
    ensures
        ceil_div(x, n) == x / n,
        (x / n) * n == x,
{
    lemma_fundamental_div_mod(x as int, n as int);
    lemma_div_multiples_vanish_fancy((x / n) as int, (n - 1) as int, n as int);
    lemma_mul_is_commutative(n as int, (x / n) as int);
}

/// The length header survives symbols: the symbols written for `len`, packed
/// back into bytes and read as a little-endian number, give `len`.
pub proof fn lemma_header_roundtrip(len: u32, n: nat)
    requires
        0 < n <= 32,
        32int % (n as int) == 0,
    ensures
        header_symbols(len, n).len() == 32nat / n,
        all_fit(symbol_values(header_symbols(len, n)), n),
        packing_error(header_symbols(len, n), n) is None,
        pack_symbols(header_symbols(len, n), n) == le_bytes(len),
        le_value(pack_symbols(header_symbols(len, n), n)) == len,
{
    lemma_unpack_then_pack(le_bytes(len), n);
    lemma_le_roundtrip(len);
}

/// What modulation writes, an ideal demodulation reads back: take the signal
/// that `module` produces from `input`, remove the synchronisation waveform,
/// and demodulate it the way a modulation does (header first when
/// `use_expected_bytes`), each piece of signal being recognised as the
/// waveform it is.  The bytes obtained are `input`.
///
/// With a header, its symbols are within `header_in_limits`, so
/// `payload_samples` on them, with the rest of the signal available, gives
/// `Ok` of the payload's sample count; `truncate_to_payload` keeps exactly
/// the payload, and `symbols_to_bytes` of its symbols gives `Ok(input)`.
pub proof fn lemma_modulation_roundtrip<T>(
    input: Seq<u8>,
    n: nat,
    table: Seq<Vec<T>>,
    sync: Seq<T>,
    use_expected_bytes: bool,
    sps: nat,
)
    requires
        0 < n <= 32,
        input.len() > 0,
        (8 * input.len()) as int % (n as int) == 0,
        use_expected_bytes ==> 32int % (n as int) == 0 && 8 * input.len() <= u32::MAX
            && payload_sample_count(input.len(), n, sps) <= usize::MAX,
        sps > 0,
        table.len() >= pow2(n),
        uniform_waveforms(table, sps),
        distinct_waveforms(table),
    ensures
        ({
            let w = modulated(input, n, table, sync, use_expected_bytes).skip(sync.len() as int);
            if use_expected_bytes {
                let hc = header_sample_count(n, sps);
                let h = ideal_symbols(w.take(hc as int), table, sps);
                let e = announced_bytes(h, n);
                let body = w.skip(hc as int);
                let pc = payload_sample_count(e, n, sps);
                let d = ideal_symbols(body.take(pc as int), table, sps);
                &&& hc <= w.len()
                &&& packing_error(h, n) is None
                &&& header_in_limits(h, n, sps)
                &&& pack_symbols(h, n).len() == 4
                &&& e == input.len()
                &&& pc <= body.len()
                &&& packing_error(d, n) is None
                &&& pack_symbols(d, n) == input
            } else {
                &&& packing_error(ideal_symbols(w, table, sps), n) is None
                &&& pack_symbols(ideal_symbols(w, table, sps), n) == input
            }
        }),
{
    let m = modulated(input, n, table, sync, use_expected_bytes);
    let w = m.skip(sync.len() as int);
    let d_syms = unpack_bytes(input, n);
    lemma_unpack_then_pack(input, n);
    assert forall|i: int| 0 <= i < d_syms.len() implies #[trigger] d_syms[i] < table.len() by {
        assert(symbol_values(d_syms)[i] == d_syms[i] as nat);
    }
    lemma_ideal_recovers(d_syms, table, sps);
    let dw = concat_waveforms(d_syms, table);
    if use_expected_bytes {
        let len32 = input.len() as u32;
        assert(len32 == input.len());
        let h_syms = header_symbols(len32, n);
        lemma_header_roundtrip(len32, n);
        assert forall|i: int| 0 <= i < h_syms.len() implies #[trigger] h_syms[i] < table.len() by {
            assert(symbol_values(h_syms)[i] == h_syms[i] as nat);
        }
        lemma_ideal_recovers(h_syms, table, sps);
        let hw = concat_waveforms(h_syms, table);
        assert(w =~= hw + dw);
        lemma_ceil_div_exact(32, n);
        let hc = header_sample_count(n, sps);
        lemma_mul_is_commutative((32nat / n) as int, sps as int);
        assert(hc == hw.len());
        assert(w.take(hc as int) =~= hw);
        assert(w.skip(hc as int) =~= dw);
        lemma_ceil_div_exact(8 * input.len(), n);
        lemma_mul_is_commutative(((8 * input.len()) / n) as int, sps as int);
        let pc = payload_sample_count(input.len(), n, sps);
        assert(pc == dw.len());
        assert(dw.take(pc as int) =~= dw);
    } else {
        assert(w =~= dw);
    }
}

} // verus!
