use signal_codification::symbols::{collect_bytes_from_raw_bytes, RawSymbols};

fn unpack(vec: &Vec<u8>, n_bit: u8) -> Vec<usize> {
    let raw_symbols = RawSymbols::try_get_symbols(vec, n_bit).unwrap();
    raw_symbols.into_iter().collect_symbols()
}

#[test]
fn test_unpack_1_bit() {
    let vec = vec![1, 2]; // 0000 0001 0000 0010
    let raw_symbols = RawSymbols::try_get_symbols(&vec, 1).unwrap();
    assert_eq!(
        vec![0, 0, 0, 0, 0, 0, 0, 1, 0, 0, 0, 0, 0, 0, 1, 0],
        raw_symbols.into_iter().collect_symbols()
    );
}

#[test]
fn test_unpack_2_bit() {
    let vec = vec![6, 3]; // 0000 0110 0000 0011
    let raw_symbols = RawSymbols::try_get_symbols(&vec, 2).unwrap();
    assert_eq!(
        vec![0, 0, 1, 2, 0, 0, 0, 3],
        raw_symbols.into_iter().collect_symbols()
    );

    let vec: Vec<u8> = vec![39, 141]; // 0010 0111 1000 1101
    let raw_symbols = RawSymbols::try_get_symbols(&vec, 2).unwrap();
    assert_eq!(
        vec![0, 2, 1, 3, 2, 0, 3, 1],
        raw_symbols.into_iter().collect_symbols()
    );
}

#[test]
fn test_unpack_3_bit() {
    let vec = vec![6, 3, 3]; // 000|0 01|10 0|000| 001|1 00|00 0|011
    let raw_symbols = RawSymbols::try_get_symbols(&vec, 3).unwrap();
    assert_eq!(
        vec![0, 1, 4, 0, 1, 4, 0, 3],
        raw_symbols.into_iter().collect_symbols()
    );
}

#[test]
fn test_unpack_4_bit() {
    let vec = vec![5, 12];
    let raw_symbols = RawSymbols::try_get_symbols(&vec, 4).unwrap();
    assert_eq!(vec![0, 5, 0, 12], raw_symbols.into_iter().collect_symbols());
}

#[test]
fn test_unpack_6_bit() {
    let vec = vec![1, 2, 4, 8, 16, 32];
    let raw_symbols = RawSymbols::try_get_symbols(&vec, 6).unwrap();
    assert_eq!(
        vec![0, 16, 8, 4, 2, 1, 0, 32],
        raw_symbols.into_iter().collect_symbols()
    );
}

#[test]
fn test_8_bit() {
    let vec = vec![123, 240];
    let raw_symbols = RawSymbols::try_get_symbols(&vec, 8).unwrap();
    assert_eq!(vec![123, 240], raw_symbols.into_iter().collect_symbols());
}

#[test]
fn test_unpack_12_bit() {
    let vec = vec![8, 16, 32]; // 0000 1000 0001 | 0000 0010 0000
    let raw_symbols = RawSymbols::try_get_symbols(&vec, 12).unwrap();
    assert_eq!(vec![129, 32], raw_symbols.into_iter().collect_symbols());
}

#[test]
fn test_pack_1_bit() {
    let vec = vec![0, 1, 0, 1, 0, 1, 0, 1, 1, 0, 0, 0, 0, 0, 1, 1];
    assert_eq!(Ok(vec![85u8, 131u8]), collect_bytes_from_raw_bytes(vec, 1));
}

#[test]
fn test_pack_2_bit() {
    let vec = vec![0, 1, 2, 3, 1, 0, 1, 2];
    assert_eq!(Ok(vec![27u8, 70u8]), collect_bytes_from_raw_bytes(vec, 2));
}

#[test]
fn test_pack_3_bit() {
    let vec = vec![0, 1, 4, 0, 1, 4, 0, 3];
    assert_eq!(Ok(vec![6, 3, 3]), collect_bytes_from_raw_bytes(vec, 3));
}

#[test]
fn test_pack_8_bit() {
    let vec = vec![255, 123, 23, 67, 98];
    assert_eq!(
        Ok(vec![255u8, 123u8, 23u8, 67u8, 98u8]),
        collect_bytes_from_raw_bytes(vec, 8)
    );
}

#[test]
fn test_pack_12_bit() {
    let vec = vec![129, 32];
    assert_eq!(
        Ok(vec![8u8, 16u8, 32u8]),
        collect_bytes_from_raw_bytes(vec, 12)
    );
}

#[test]
fn symbols_that_do_not_cover_the_bytes_are_refused() {
    let vec = vec![1u8, 2u8];
    assert!(RawSymbols::try_get_symbols(&vec, 3).is_err());
    assert!(RawSymbols::try_get_symbols(&vec, 5).is_err());
    assert!(RawSymbols::try_get_symbols(&vec, 16).is_ok());
}

#[test]
fn packing_nothing_is_refused() {
    assert_eq!(
        Err("You tried to convert an empty vec of signals or used 0 as number of bit per signal"),
        collect_bytes_from_raw_bytes(vec![], 2)
    );
    assert_eq!(
        Err("You tried to convert an empty vec of signals or used 0 as number of bit per signal"),
        collect_bytes_from_raw_bytes(vec![1, 2], 0)
    );
}

#[test]
fn packing_a_too_large_symbol_is_refused() {
    assert_eq!(
        Err("You are trying to convert and incorrect symbol"),
        collect_bytes_from_raw_bytes(vec![0, 1, 4, 1], 2)
    );
}

#[test]
fn packing_drops_an_incomplete_last_byte() {
    // 9 one-bit symbols: one whole byte and a bit left over
    assert_eq!(Ok(vec![0xffu8]), collect_bytes_from_raw_bytes(vec![1; 9], 1));
    // 3 symbols of 3 bits: one byte, one bit left over
    assert_eq!(Ok(vec![0b111_000_11u8]), collect_bytes_from_raw_bytes(vec![7, 0, 7], 3));
}

#[test]
fn unpack_then_pack_gives_the_bytes_back() {
    let bytes: Vec<u8> = vec![39, 141, 173, 63, 182, 0, 255, 17];
    for n in [1u8, 2, 4, 8, 16, 32] {
        let symbols = unpack(&bytes, n);
        assert_eq!(symbols.len(), bytes.len() * 8 / n as usize);
        assert_eq!(Ok(bytes.clone()), collect_bytes_from_raw_bytes(symbols, n));
    }
    let bytes: Vec<u8> = vec![39, 141, 173];
    for n in [3u8, 6, 12, 24] {
        let symbols = unpack(&bytes, n);
        assert_eq!(Ok(bytes.clone()), collect_bytes_from_raw_bytes(symbols, n));
    }
}

#[test]
fn pack_then_unpack_gives_the_symbols_back() {
    let symbols: Vec<usize> = vec![5, 0, 7, 3, 1, 6, 2, 4];
    let bytes = collect_bytes_from_raw_bytes(symbols.clone(), 3).unwrap();
    assert_eq!(bytes.len(), 3);
    assert_eq!(symbols, unpack(&bytes, 3));
}

#[test]
fn iterator_yields_symbols_one_by_one() {
    let vec = vec![39u8, 141u8];
    let mut it = RawSymbols::try_get_symbols(&vec, 4).unwrap().into_iter();
    assert_eq!(Some(2), it.next());
    assert_eq!(Some(7), it.next());
    assert_eq!(Some(8), it.next());
    assert_eq!(Some(13), it.next());
    assert_eq!(None, it.next());
    assert_eq!(None, it.next());
}

#[test]
fn to_signal_vec_draws_the_waveform_of_each_symbol() {
    let vec = vec![0b0110_0001u8];
    let table: Vec<Vec<i32>> = vec![vec![0, 0], vec![1, 1], vec![2, -2], vec![-3, 3]];
    let raw = RawSymbols::try_get_symbols(&vec, 2).unwrap();
    // symbols 1, 2, 0, 1
    assert_eq!(vec![1, 1, 2, -2, 0, 0, 1, 1], raw.to_signal_vec(&table));
}

#[test]
fn symbols_are_windows_of_the_bit_stream() {
    let bytes: Vec<u8> = vec![0b1011_0010, 0x5a, 0xff, 0x00, 0x81, 0x3c];
    let bit = |p: usize| ((bytes[p / 8] >> (7 - p % 8)) & 1) as usize;
    for n in [1u8, 2, 3, 4, 6, 8, 12, 16, 24] {
        let k_count = bytes.len() * 8 / n as usize;
        let expected: Vec<usize> = (0..k_count)
            .map(|k| {
                (0..n as usize).fold(0, |acc, j| acc | (bit(k * n as usize + j) << (n as usize - 1 - j)))
            })
            .collect();
        assert_eq!(expected, unpack(&bytes, n));
        assert!(expected.iter().all(|s| *s < 1 << n));
    }
}
