//! Splitting bytes into fixed-width symbols and packing symbols back into bytes.
//!
//! Both directions read the bytes and the symbols as one stream of bits,
//! most significant bit first (see [`crate::bits`]).
use vstd::prelude::*;
use vstd::arithmetic::power2::*;
use vstd::arithmetic::div_mod::*;
use vstd::arithmetic::mul::*;
use vstd::bits::*;
use vstd::slice::slice_subrange;
use crate::bits::{
    all_fit, byte_stream, byte_values, from_bits, group_bits, lemma_flatten_index,
    lemma_flatten_len, lemma_flatten_push, lemma_flatten_skip, lemma_from_bits_bound,
    lemma_group_append, lemma_group_fit, lemma_group_partial, lemma_to_bits_index,
    lemma_to_bits_len, pack_symbols, symbol_stream, symbol_values, to_bits, unpack_bytes,
    lemma_flatten_group, lemma_group_flatten, lemma_group_len,
};

verus! {

/// Errors that modulation can report.
#[derive(Debug)]
pub enum ModErr {
    InvalidInput,
}

/// Errors that demodulation can report.
#[derive(Debug)]
pub enum DemodErr {
    InvalidInput,
    SyncNotFound,
    /// The length header announced more bytes than the signal can hold.
    SmallerThanExpected,
    Other(String),
}

/// Symbols of `n_bit` bits each, read from a byte slice.
pub struct RawSymbols<'a> {
    n_bit: u8,
    remaining: &'a [u8],
}

/// Walks over the symbols of a [`RawSymbols`], one symbol per call of `next`.
pub struct RawSymbolIterator<'a> {
    n_bit: u8,
    /// Position, inside the first byte of `remaining`, of the next bit to read
    /// (7 is the most significant bit).
    starting_bit: u8,
    remaining: &'a [u8],
}

/// `x > 0` and a multiple of `n` implies `x >= n`.
proof fn lemma_positive_multiple(x: int, n: int)
    requires
        x > 0,
        n > 0,
        x % n == 0,
    ensures
        x >= n,
{
    if x < n {
        lemma_small_mod(x as nat, n as nat);
    }
}

/// `x / d == 0` exactly when `x < d`.
proof fn lemma_div_zero_iff(x: nat, d: nat)
    requires
        d > 0,
    ensures
        (x / d == 0) == (x < d),
{
    if x < d {
        lemma_basic_div(x as int, d as int);
    } else {
        lemma_div_is_ordered(d as int, x as int, d as int);
        lemma_div_by_self(d as int);
    }
}

/// Bit `i` of a byte.
fn byte_bit(b: u8, i: u8) -> (r: u64)
    requires
        i < 8,
    ensures
        r == (b as nat / pow2(i as nat)) % 2,
        r < 2,
{
    proof {
        lemma_u8_shr_is_div(b, i);
    }
    ((b >> i) % 2) as u64
}

/// Bit `i` of a 64-bit value.
fn word_bit(x: u64, i: u8) -> (r: u64)
    requires
        i < 64,
    ensures
        r == (x as nat / pow2(i as nat)) % 2,
        r < 2,
{
    proof {
        lemma_u64_shr_is_div(x, i as u64);
    }
    (x >> i) % 2
}

/// Whether `x` fits in `n` bits.
fn fits_bits(x: u64, n: u8) -> (r: bool)
    requires
        0 < n <= 64,
    ensures
        r == (x < pow2(n as nat)),
{
    if n == 64 {
        proof {
            lemma2_to64();
        }
        true
    } else {
        proof {
            lemma_u64_shr_is_div(x, n as u64);
            lemma_pow2_pos(n as nat);
            lemma_div_zero_iff(x as nat, pow2(n as nat));
        }
        (x >> n) == 0
    }
}

impl<'a> RawSymbols<'a> {
    #[verifier::type_invariant]
    spec fn well_formed(&self) -> bool {
        &&& self.n_bit > 0
        &&& (8 * self.remaining@.len()) as int % (self.n_bit as int) == 0
    }

    /// The number of bits in each symbol.
    pub closed spec fn bits_per_symbol(&self) -> nat {
        self.n_bit as nat
    }

    /// The bytes the symbols are read from.
    pub closed spec fn bytes(&self) -> Seq<u8> {
        self.remaining@
    }

    /// This will return a simple wrapper that is able to parse the bytes
    /// symbol after symbol.
    ///
    /// If the number of bits makes it impossible to cover all the bytes
    /// exactly, it fails.
    pub fn try_get_symbols(vec: &'a Vec<u8>, n_bit: u8) -> (res: Result<Self, &'static str>)
        requires
            n_bit > 0,
            vec@.len() * 8 <= usize::MAX,
        ensures
            res is Ok <==> (vec@.len() * 8) as int % (n_bit as int) == 0,
            res matches Ok(s) ==> s.bits_per_symbol() == n_bit && s.bytes() == vec@ && s@ == unpack_bytes(
                vec@,
                n_bit as nat,
            ),
            res matches Err(e) ==> e@
                == "Impossible extract perfect symbols from here, maybe is possible but now I'm too tired to think"@,
    {
        if (vec.len() * 8) % n_bit as usize != 0 {
            return Err(
                "Impossible extract perfect symbols from here, maybe is possible but now I'm too tired to think",
            );
        }
        Ok(Self { n_bit, remaining: vec.as_slice() })
    }

    /// Turns the symbols into an iterator that yields them one by one.
    pub fn into_iter(self) -> (it: RawSymbolIterator<'a>)
        ensures
            it.bits_per_symbol() == self.bits_per_symbol(),
            it@ == self@,
    {
        proof {
            use_type_invariant(&self);
            lemma_flatten_len(byte_values(self.remaining@), 8);
            assert(byte_stream(self.remaining@).skip(0) =~= byte_stream(self.remaining@));
        }
        RawSymbolIterator { n_bit: self.n_bit, starting_bit: 7, remaining: self.remaining }
    }

    /// The samples of a signal made of one waveform per symbol: the waveform
    /// of symbol `i` is `symbols[i]`.
    ///
    /// Every symbol must name a waveform of `symbols`.
    pub fn to_signal_vec<T: Copy>(self, symbols: &[Vec<T>]) -> (res: Vec<T>)
        requires
            self.bits_per_symbol() <= 32 || self@.len() == 0,
            forall|i: int| 0 <= i < self@.len() ==> #[trigger] self@[i] < symbols@.len(),
        ensures
            res@ == concat_waveforms(self@, symbols@),
    {
        let ghost all = self@;
        let mut it = self.into_iter();
        let mut out: Vec<T> = Vec::new();
        assert(all.skip(0) =~= all);
        loop
            invariant
                it.bits_per_symbol() <= 32 || it@.len() == 0,
                it@ == all.skip(all.len() - it@.len()),
                it@.len() <= all.len(),
                forall|i: int| 0 <= i < all.len() ==> #[trigger] all[i] < symbols@.len(),
                out@ + concat_waveforms(it@, symbols@) == concat_waveforms(all, symbols@),
            ensures
                out@ == concat_waveforms(all, symbols@),
            decreases it@.len(),
        {
            let ghost before = it@;
            match it.next() {
                None => {
                    assert(concat_waveforms(before, symbols@) =~= Seq::<T>::empty());
                    assert(out@ + Seq::<T>::empty() =~= out@);
                    break;
                },
                Some(idx) => {
                    assert(before[0] == all[all.len() - before.len()]);
                    let wave = &symbols[idx];
                    let ghost start = out@;
                    let mut j: usize = 0;
                    while j < wave.len()
                        invariant
                            0 <= j <= wave@.len(),
                            out@ == start + wave@.take(j as int),
                        decreases wave@.len() - j,
                    {
                        out.push(wave[j]);
                        j += 1;
                        assert(out@ =~= start + wave@.take(j as int));
                    }
                    assert(wave@.take(wave@.len() as int) =~= wave@);
                    assert(it@ == before.drop_first());
                    assert(all.skip(all.len() - it@.len()) =~= before.drop_first());
                    assert(out@ + concat_waveforms(it@, symbols@) =~= start + concat_waveforms(
                        before,
                        symbols@,
                    ));
                },
            }
        }
        out
    }
}

/// The signal made of the waveforms of `indices`, one after the other.
pub open spec fn concat_waveforms<T>(indices: Seq<usize>, table: Seq<Vec<T>>) -> Seq<T>
    decreases indices.len(),
{
    if indices.len() == 0 {
        Seq::empty()
    } else {
        table[indices[0] as int]@ + concat_waveforms(indices.drop_first(), table)
    }
}

/// One more symbol adds its waveform at the end of the signal, whatever came
/// before: the signal is the waveforms of the symbols, in order, each whole.
pub proof fn lemma_concat_waveforms_push<T>(indices: Seq<usize>, table: Seq<Vec<T>>, k: usize)
    ensures
        concat_waveforms(indices.push(k), table) == concat_waveforms(indices, table) + table[k as int]@,
    decreases indices.len(),
{
    if indices.len() == 0 {
        assert(indices.push(k).drop_first() =~= Seq::<usize>::empty());
        assert(concat_waveforms(Seq::<usize>::empty(), table) =~= Seq::<T>::empty());
        assert(indices.push(k)[0] == k);
        assert(concat_waveforms(indices, table) =~= Seq::<T>::empty());
        assert(concat_waveforms(indices.push(k), table) =~= table[k as int]@);
    } else {
        assert(indices.push(k).drop_first() =~= indices.drop_first().push(k));
        assert(indices.push(k)[0] == indices[0]);
        lemma_concat_waveforms_push(indices.drop_first(), table, k);
        assert(concat_waveforms(indices.push(k), table) =~= concat_waveforms(indices, table)
            + table[k as int]@);
    }
}

/// The signal made of the waveforms of `indices`, one after the other (for
/// example the synchronisation signal of a modulation, given by its symbols).
pub fn waveforms_of<T: Copy>(indices: &Vec<usize>, table: &[Vec<T>]) -> (res: Vec<T>)
    requires
        forall|i: int| 0 <= i < indices@.len() ==> #[trigger] indices@[i] < table@.len(),
    ensures
        res@ == concat_waveforms(indices@, table@),
{
    let mut out: Vec<T> = Vec::new();
    let mut i: usize = 0;
    assert(indices@.skip(0) =~= indices@);
    while i < indices.len()
        invariant
            i <= indices@.len(),
            forall|k: int| 0 <= k < indices@.len() ==> #[trigger] indices@[k] < table@.len(),
            out@ + concat_waveforms(indices@.skip(i as int), table@) == concat_waveforms(
                indices@,
                table@,
            ),
        decreases indices@.len() - i,
    {
        let wave = &table[indices[i]];
        let ghost start = out@;
        let mut j: usize = 0;
        while j < wave.len()
            invariant
                0 <= j <= wave@.len(),
                out@ == start + wave@.take(j as int),
            decreases wave@.len() - j,
        {
            out.push(wave[j]);
            j += 1;
            assert(out@ =~= start + wave@.take(j as int));
        }
        assert(wave@.take(wave@.len() as int) =~= wave@);
        assert(indices@.skip(i as int).drop_first() =~= indices@.skip(i + 1));
        i += 1;
        assert(out@ + concat_waveforms(indices@.skip(i as int), table@) =~= start
            + concat_waveforms(indices@.skip(i - 1), table@));
    }
    assert(concat_waveforms(indices@.skip(i as int), table@) =~= Seq::<T>::empty());
    assert(out@ + Seq::<T>::empty() =~= out@);
    out
}

/// The bits that `n_symbols` symbols can carry: the base-2 logarithm of
/// `n_symbols`, rounded down (0 when there is no symbol).
pub fn bits_per_symbol_of(n_symbols: usize) -> (res: u8)
    ensures
        n_symbols == 0 ==> res == 0,
        n_symbols > 0 ==> pow2(res as nat) <= n_symbols < pow2(res as nat + 1),
{
    if n_symbols == 0 {
        return 0;
    }
    let mut m = n_symbols;
    let mut r: u8 = 0;
    proof {
        lemma2_to64();
        lemma_div_basics(n_symbols as int);
    }
    while m > 1
        invariant
            n_symbols > 0,
            m >= 1,
            m == n_symbols as nat / pow2(r as nat),
            pow2(r as nat) <= n_symbols,
            r < 64,
        decreases m,
    {
        proof {
            lemma_pow2_pos(r as nat);
            lemma_pow2_unfold((r + 1) as nat);
            lemma_div_denominator(n_symbols as int, pow2(r as nat) as int, 2);
            lemma_mul_is_commutative(pow2(r as nat) as int, 2);
            lemma_fundamental_div_mod(n_symbols as int, pow2((r + 1) as nat) as int);
            lemma_mul_inequality(1, (m / 2) as int, pow2((r + 1) as nat) as int);
            lemma2_to64();
            if r + 1 >= 64 {
                if r + 1 > 64 {
                    lemma_pow2_strictly_increases(64, (r + 1) as nat);
                }
            }
        }
        m = m / 2;
        r = r + 1;
    }
    proof {
        lemma_pow2_pos(r as nat);
        lemma_pow2_unfold((r + 1) as nat);
        lemma_fundamental_div_mod(n_symbols as int, pow2(r as nat) as int);
        lemma_mod_bound(n_symbols as int, pow2(r as nat) as int);
    }
    r
}

impl<'a> View for RawSymbols<'a> {
    type V = Seq<usize>;

    /// The symbols, in order.
    closed spec fn view(&self) -> Seq<usize> {
        unpack_bytes(self.remaining@, self.n_bit as nat)
    }
}

impl<'a> RawSymbolIterator<'a> {
    #[verifier::type_invariant]
    spec fn well_formed(&self) -> bool {
        &&& self.n_bit > 0
        &&& self.starting_bit <= 7
        &&& self.remaining@.len() == 0 ==> self.starting_bit == 7
        &&& (8 * self.remaining@.len() - (7 - self.starting_bit)) % (self.n_bit as int) == 0
    }

    /// The number of bits in each symbol.
    pub closed spec fn bits_per_symbol(&self) -> nat {
        self.n_bit as nat
    }

    /// The bits not read yet.
    closed spec fn pending_bits(&self) -> Seq<bool> {
        byte_stream(self.remaining@).skip(7 - self.starting_bit)
    }

    /// Yields the next symbol, or `None` once every symbol was read.
    pub fn next(&mut self) -> (res: Option<usize>)
        requires
            old(self).bits_per_symbol() <= 32 || old(self)@.len() == 0,
        ensures
            final(self).bits_per_symbol() == old(self).bits_per_symbol(),
            old(self)@.len() == 0 ==> res is None && final(self)@ == old(self)@,
            old(self)@.len() > 0 ==> res == Some(old(self)@[0]) && final(self)@ == old(
                self,
            )@.drop_first(),
    {
        proof {
            use_type_invariant(&*self);
            lemma_flatten_len(byte_values(self.remaining@), 8);
        }
        let ghost nn = self.n_bit as nat;
        let ghost s = byte_stream(self.remaining@);
        let ghost p0: int = 7 - self.starting_bit;
        let ghost pending = self.pending_bits();
        if self.remaining.len() == 0 {
            proof {
                assert(pending.len() == 0);
            }
            return None;
        }
        proof {
            lemma_positive_multiple(8 * self.remaining@.len() - p0, nn as int);
            lemma_group_fit(pending, nn);
        }
        let n = self.n_bit;
        let mut byte_index: u8 = self.starting_bit;
        let mut arr_index: usize = 0;
        let mut holder: u64 = 0;
        let mut k: u8 = 0;
        assert(s.subrange(p0, p0) =~= Seq::<bool>::empty());
        proof {
            lemma2_to64();
        }
        while k < n
            invariant
                n == nn,
                0 < n <= 32,
                0 <= k <= n,
                byte_index <= 7,
                s == byte_stream(self.remaining@),
                s.len() == 8 * self.remaining@.len(),
                8 * arr_index + 7 - byte_index == p0 + k,
                0 <= p0 <= 7,
                p0 + n <= s.len(),
                holder == from_bits(s.subrange(p0, p0 + k)),
                holder < pow2(k as nat),
            decreases n - k,
        {
            let byte = self.remaining[arr_index];
            let bit = byte_bit(byte, byte_index);
            proof {
                lemma2_to64();
                lemma_flatten_index(byte_values(self.remaining@), 8, arr_index as int, 7 - byte_index);
                lemma_to_bits_index(byte as nat, 8, (7 - byte_index) as nat);
                assert(byte_values(self.remaining@)[arr_index as int] == byte as nat);
                assert(s[p0 + k] == (bit == 1));
                assert(s.subrange(p0, p0 + k + 1).drop_last() =~= s.subrange(p0, p0 + k));
                lemma_pow2_unfold((k + 1) as nat);
                lemma_pow2_strictly_increases(k as nat, 32);
                lemma_pow2_strictly_increases((k + 1) as nat, 64);
            }
            holder = holder * 2 + bit;
            if byte_index == 0 {
                arr_index += 1;
                byte_index = 7;
            } else {
                byte_index -= 1;
            }
            k += 1;
        }
        let rest = slice_subrange(self.remaining, arr_index, self.remaining.len());
        proof {
            assert(pending.take(nn as int) =~= s.subrange(p0, p0 + nn));
            let g = group_bits(pending, nn);
            assert(g[0] == holder);
            lemma_pow2_strictly_increases(nn, 33);
            if nn == 32 {
                assert(pow2(32) == 0x100000000);
            }
            assert(holder <= u32::MAX);
            assert(self@ == g.map_values(|v: nat| v as usize));
            assert(self@[0] == holder as usize);
            // what is left of the stream
            lemma_flatten_skip(byte_values(self.remaining@), 8, arr_index as int);
            assert(byte_values(rest@) =~= byte_values(self.remaining@).skip(arr_index as int));
            assert(byte_stream(rest@).skip(7 - byte_index) =~= pending.skip(nn as int));
            assert(g.drop_first() == group_bits(pending.skip(nn as int), nn));
            lemma_mod_sub_multiples_vanish(pending.len() as int, nn as int);
        }
        *self = RawSymbolIterator { n_bit: n, starting_bit: byte_index, remaining: rest };
        proof {
            assert(self.pending_bits() =~= pending.skip(nn as int));
            assert(self@ =~= old(self)@.drop_first());
        }
        Some(holder as usize)
    }

    /// Collects every symbol that is left.
    pub fn collect_symbols(self) -> (res: Vec<usize>)
        requires
            self.bits_per_symbol() <= 32 || self@.len() == 0,
        ensures
            res@ == self@,
    {
        let mut it = self;
        let ghost all = it@;
        let mut out: Vec<usize> = Vec::new();
        loop
            invariant
                it.bits_per_symbol() <= 32 || it@.len() == 0,
                out@ + it@ == all,
            ensures
                out@ == all,
            decreases it@.len(),
        {
            let ghost before = it@;
            match it.next() {
                None => {
                    assert(out@ + before =~= out@);
                    break;
                },
                Some(v) => {
                    out.push(v);
                    assert(out@ + it@ =~= all);
                },
            }
        }
        out
    }
}

impl<'a> View for RawSymbolIterator<'a> {
    type V = Seq<usize>;

    /// The symbols not yielded yet.
    closed spec fn view(&self) -> Seq<usize> {
        group_bits(self.pending_bits(), self.n_bit as nat).map_values(|v: nat| v as usize)
    }
}

/// Packs symbols of `n_bit` bits into bytes: the symbols are written one after
/// the other, most significant bit first, and the stream is cut into bytes.
/// The bits of a last, incomplete byte are dropped.
pub fn collect_bytes_from_raw_bytes(raw_bytes: Vec<usize>, n_bit: u8) -> (res: Result<
    Vec<u8>,
    &'static str,
>)
    requires
        raw_bytes@.len() == 0 || n_bit == 0 || n_bit as u32 <= usize::BITS,
    ensures
        (raw_bytes@.len() == 0 || n_bit == 0) ==> (res matches Err(e) && e@
            == "You tried to convert an empty vec of signals or used 0 as number of bit per signal"@),
        (raw_bytes@.len() > 0 && n_bit > 0 && !all_fit(symbol_values(raw_bytes@), n_bit as nat))
            ==> (res matches Err(e) && e@ == "You are trying to convert and incorrect symbol"@),
        (raw_bytes@.len() > 0 && n_bit > 0 && all_fit(symbol_values(raw_bytes@), n_bit as nat))
            ==> (res matches Ok(v) && v@ == pack_symbols(raw_bytes@, n_bit as nat)),
{
    if raw_bytes.len() == 0 || n_bit == 0 {
        return Err(
            "You tried to convert an empty vec of signals or used 0 as number of bit per signal",
        );
    }
    let n = n_bit;
    let ghost nn = n as nat;
    let mut bytes: Vec<u8> = Vec::new();
    let mut current: u8 = 0;
    let mut filled: u8 = 0;
    let ghost mut stream: Seq<bool> = Seq::empty();
    let mut i: usize = 0;
    proof {
        lemma2_to64();
        assert(symbol_values(raw_bytes@.take(0)) =~= Seq::<nat>::empty());
        assert(stream.take(0) =~= stream);
        assert(stream.skip(0) =~= stream);
        assert(byte_values(bytes@) =~= group_bits(stream.take(0), 8));
    }
    while i < raw_bytes.len()
        invariant
            n == nn,
            n == n_bit,
            0 < n <= 64,
            raw_bytes@.len() > 0,
            0 <= i <= raw_bytes@.len(),
            all_fit(symbol_values(raw_bytes@.take(i as int)), nn),
            stream == symbol_stream(raw_bytes@.take(i as int), nn),
            filled < 8,
            stream.len() == 8 * bytes@.len() + filled,
            byte_values(bytes@) == group_bits(stream.take((8 * bytes@.len()) as int), 8),
            current == from_bits(stream.skip((8 * bytes@.len()) as int)),
        decreases raw_bytes@.len() - i,
    {
        let symbol = raw_bytes[i] as u64;
        if !fits_bits(symbol, n) {
            proof {
                assert(symbol_values(raw_bytes@)[i as int] == raw_bytes@[i as int] as nat);
            }
            return Err("You are trying to convert and incorrect symbol");
        }
        let ghost before = stream;
        let mut left: u8 = n;
        proof {
            assert(to_bits(symbol as nat, nn).take(0) =~= Seq::<bool>::empty());
            assert(stream =~= before + to_bits(symbol as nat, nn).take(0));
        }
        while left > 0
            invariant
                n == nn,
                0 < n <= 64,
                left <= n,
                filled < 8,
                stream == before + to_bits(symbol as nat, nn).take(nn - left),
                stream.len() == 8 * bytes@.len() + filled,
                byte_values(bytes@) == group_bits(stream.take((8 * bytes@.len()) as int), 8),
                current == from_bits(stream.skip((8 * bytes@.len()) as int)),
            decreases left,
        {
            left -= 1;
            let bit = word_bit(symbol, left);
            let ghost k = (nn - 1 - left) as nat;
            let ghost old_stream = stream;
            proof {
                lemma2_to64();
                lemma_to_bits_len(symbol as nat, nn);
                lemma_to_bits_index(symbol as nat, nn, k);
                assert(to_bits(symbol as nat, nn).take(k + 1 as int) =~= to_bits(symbol as nat, nn).take(
                    k as int,
                ).push(bit == 1));
                let done = (8 * bytes@.len()) as int;
                assert(stream.push(bit == 1).skip(done) =~= stream.skip(done).push(bit == 1));
                assert(stream.skip(done).push(bit == 1).drop_last() =~= stream.skip(done));
                lemma_from_bits_bound(stream.skip(done));
                if filled < 7 {
                    lemma_pow2_strictly_increases(filled as nat, 7);
                }
                stream = stream.push(bit == 1);
                assert(stream == before + to_bits(symbol as nat, nn).take(nn - left));
                assert(stream.take(done) =~= old_stream.take(done));
            }
            current = current * 2 + bit as u8;
            filled += 1;
            if filled == 8 {
                proof {
                    let done = (8 * bytes@.len()) as int;
                    let prefix = stream.take(done);
                    let chunk = stream.skip(done);
                    assert(prefix.len() % 8 == 0);
                    lemma_group_append(prefix, chunk, 8);
                    assert(prefix + chunk =~= stream);
                    assert(stream.take(done + 8) =~= stream);
                    assert(stream.skip(done + 8) =~= Seq::<bool>::empty());
                }
                bytes.push(current);
                current = 0;
                filled = 0;
                proof {
                    assert(byte_values(bytes@) =~= group_bits(stream.take((8 * bytes@.len()) as int), 8));
                }
            }
        }
        proof {
            lemma_to_bits_len(symbol as nat, nn);
            assert(to_bits(symbol as nat, nn).take(nn as int) =~= to_bits(symbol as nat, nn));
            assert(symbol_values(raw_bytes@.take(i + 1)) =~= symbol_values(raw_bytes@.take(
                i as int,
            )).push(symbol as nat));
            lemma_flatten_push(symbol_values(raw_bytes@.take(i as int)), symbol as nat, nn);
            let vals = symbol_values(raw_bytes@.take(i + 1));
            assert forall|j: int| 0 <= j < vals.len() implies #[trigger] vals[j] < pow2(nn) by {
                if j < i {
                    assert(vals[j] == symbol_values(raw_bytes@.take(i as int))[j]);
                }
            }
        }
        i += 1;
    }
    proof {
        assert(raw_bytes@.take(i as int) =~= raw_bytes@);
        let done = (8 * bytes@.len()) as int;
        let prefix = stream.take(done);
        let tail = stream.skip(done);
        assert(prefix + tail =~= stream);
        lemma_group_partial(prefix, tail, 8);
        let g = group_bits(symbol_stream(raw_bytes@, nn), 8);
        assert(byte_values(bytes@) == g);
        assert(bytes@ =~= g.map_values(|v: nat| v as u8)) by {
            assert forall|j: int| 0 <= j < bytes@.len() implies bytes@[j] == g.map_values(
                |v: nat| v as u8,
            )[j] by {
                assert(byte_values(bytes@)[j] == bytes@[j] as nat);
            }
        }
    }
    Ok(bytes)
}

/// Values below `2^32` survive a trip through `usize`.
proof fn lemma_usize_roundtrip(g: Seq<nat>, n: nat)
    requires
        n <= 32,
        all_fit(g, n),
    ensures
        symbol_values(g.map_values(|v: nat| v as usize)) == g,
{
    lemma2_to64();
    if n < 32 {
        lemma_pow2_strictly_increases(n, 32);
    }
    let u = g.map_values(|v: nat| v as usize);
    assert forall|i: int| 0 <= i < g.len() implies #[trigger] symbol_values(u)[i] == g[i] by {
        assert(g[i] < pow2(n));
    }
    assert(symbol_values(u) =~= g);
}

/// Bytes survive a trip through numbers.
proof fn lemma_byte_values_fit(bytes: Seq<u8>)
    ensures
        all_fit(byte_values(bytes), 8),
        byte_values(bytes).map_values(|v: nat| v as u8) == bytes,
{
    lemma2_to64();
    assert(byte_values(bytes).map_values(|v: nat| v as u8) =~= bytes);
}

/// Symbol `k` of the bytes, `n` bits each, is the window of bits `n * k` to
/// `n * k + n - 1` of the bytes read one after the other, most significant bit
/// first, across byte boundaries: its bit of weight `2^(n - 1 - j)` is the bit
/// of weight `2^(7 - p % 8)` of byte `p / 8`, where `p = n * k + j`.  Every
/// symbol is therefore below `2^n`.
///
/// These are the symbols that `RawSymbols::try_get_symbols(bytes, n)` holds
/// and that `RawSymbolIterator::next` yields one by one.
pub proof fn lemma_symbol_bits(bytes: Seq<u8>, n: nat, k: int, j: int)
    requires
        0 < n <= 32,
        (8 * bytes.len()) as int % (n as int) == 0,
        0 <= k < (8 * bytes.len()) as int / (n as int),
        0 <= j < n,
    ensures
        unpack_bytes(bytes, n).len() == (8 * bytes.len()) as int / (n as int),
        (unpack_bytes(bytes, n)[k] as nat) < pow2(n),
        0 <= n * k + j < 8 * bytes.len(),
        ((unpack_bytes(bytes, n)[k] as nat / pow2((n - 1 - j) as nat)) % 2 == 1) == ((bytes[(n * k
            + j) / 8] as nat / pow2((7 - (n * k + j) % 8) as nat)) % 2 == 1),
{
    let vals = byte_values(bytes);
    let bs = byte_stream(bytes);
    lemma_flatten_len(vals, 8);
    let g = group_bits(bs, n);
    lemma_group_len(bs, n);
    lemma_group_fit(bs, n);
    lemma_flatten_group(bs, n);
    lemma2_to64();
    if n < 32 {
        lemma_pow2_strictly_increases(n, 32);
    }
    assert(g[k] < pow2(n));
    assert(unpack_bytes(bytes, n)[k] as nat == g[k]);
    lemma_flatten_index(g, n, k, j);
    lemma_to_bits_index(g[k], n, j as nat);
    let p = n * k + j;
    lemma_fundamental_div_mod((8 * bytes.len()) as int, n as int);
    assert(p < 8 * bytes.len());
    let q = p / 8;
    let r = p % 8;
    lemma_fundamental_div_mod(p, 8);
    assert(0 <= q < bytes.len());
    lemma_flatten_index(vals, 8, q, r);
    assert(bs[8 * q + r] == bs[p]);
    lemma_to_bits_index(vals[q], 8, r as nat);
}

/// Splitting bytes into `n`-bit symbols and packing the symbols back gives
/// the same bytes, whenever the symbols cover the bytes exactly.
///
/// So `collect_bytes_from_raw_bytes` of the symbols that
/// `RawSymbols::try_get_symbols(bytes, n)` yields is `Ok(bytes)`.
pub proof fn lemma_unpack_then_pack(bytes: Seq<u8>, n: nat)
    requires
        0 < n <= 32,
        bytes.len() > 0,
        (8 * bytes.len()) as int % (n as int) == 0,
    ensures
        unpack_bytes(bytes, n).len() > 0,
        unpack_bytes(bytes, n).len() == (8 * bytes.len()) as int / (n as int),
        all_fit(symbol_values(unpack_bytes(bytes, n)), n),
        pack_symbols(unpack_bytes(bytes, n), n) == bytes,
{
    let bs = byte_stream(bytes);
    lemma_flatten_len(byte_values(bytes), 8);
    let g = group_bits(bs, n);
    lemma_group_fit(bs, n);
    lemma_group_len(bs, n);
    lemma_positive_multiple((8 * bytes.len()) as int, n as int);
    lemma_div_is_ordered(n as int, (8 * bytes.len()) as int, n as int);
    lemma_div_by_self(n as int);
    lemma_usize_roundtrip(g, n);
    lemma_flatten_group(bs, n);
    lemma_byte_values_fit(bytes);
    lemma_group_flatten(byte_values(bytes), 8);
}

/// Packing `n`-bit symbols into bytes and splitting the bytes back into
/// `n`-bit symbols gives the same symbols, whenever the symbols fill whole
/// bytes.
///
/// So `RawSymbols::try_get_symbols` succeeds on the bytes that
/// `collect_bytes_from_raw_bytes` returns, and yields the symbols it was given.
pub proof fn lemma_pack_then_unpack(symbols: Seq<usize>, n: nat)
    requires
        0 < n <= 32,
        all_fit(symbol_values(symbols), n),
        (n * symbols.len()) as int % 8 == 0,
    ensures
        (8 * pack_symbols(symbols, n).len()) as int % (n as int) == 0,
        pack_symbols(symbols, n).len() == (n * symbols.len()) as int / 8,
        unpack_bytes(pack_symbols(symbols, n), n) == symbols,
{
    let vals = symbol_values(symbols);
    let ss = symbol_stream(symbols, n);
    lemma_flatten_len(vals, n);
    let g = group_bits(ss, 8);
    lemma_group_fit(ss, 8);
    lemma_group_len(ss, 8);
    lemma2_to64();
    let p = pack_symbols(symbols, n);
    assert(byte_values(p) =~= g);
    lemma_flatten_group(ss, 8);
    lemma_flatten_len(g, 8);
    lemma_mul_is_commutative(n as int, symbols.len() as int);
    lemma_mod_multiples_basic(symbols.len() as int, n as int);
    lemma_group_flatten(vals, n);
    assert(vals.map_values(|v: nat| v as usize) =~= symbols);
}

} // verus!
