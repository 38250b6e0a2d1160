use signal_codification::framing::{
    expected_samples, header_samples, header_within_limits, module, payload_samples,
    split_header, symbols_to_bytes, truncate_to_payload, u32_from_le_bytes, u32_to_le_bytes,
};
use signal_codification::symbols::{DemodErr, ModErr};

/// A table of integer waveforms of `sps` samples, all different.
fn table(n_symbols: usize, sps: usize) -> Vec<Vec<i64>> {
    (0..n_symbols)
        .map(|s| (0..sps).map(|k| (s * 1000 + k) as i64).collect())
        .collect()
}

/// Recognises each piece of `sps` samples as the waveform it is.
fn ideal_demod(samples: &[i64], table: &Vec<Vec<i64>>, sps: usize) -> Vec<usize> {
    samples
        .chunks(sps)
        .filter(|c| c.len() == sps)
        .map(|c| table.iter().position(|w| w.as_slice() == c).unwrap())
        .collect()
}

/// The demodulation a modulation does, with an ideal symbol recognition.
fn demodule(
    signal: Vec<i64>,
    sync_len: usize,
    n: u8,
    table: &Vec<Vec<i64>>,
    sps: usize,
    use_expected_bytes: bool,
) -> Result<Vec<u8>, DemodErr> {
    let mut input: Vec<i64> = signal[sync_len..].to_vec();
    if use_expected_bytes {
        let count = header_samples(n, sps);
        let header = split_header(&mut input, count);
        let symbols = ideal_demod(&header, table, sps);
        assert!(header_within_limits(&symbols, n, sps));
        let samples = payload_samples(symbols, n, sps, input.len())?;
        truncate_to_payload(&mut input, samples)?;
    }
    symbols_to_bytes(ideal_demod(&input, table, sps), n)
}

#[test]
fn little_endian_header_bytes() {
    assert_eq!(vec![0x78, 0x56, 0x34, 0x12], u32_to_le_bytes(0x12345678));
    assert_eq!(0x12345678, u32_from_le_bytes(&vec![0x78, 0x56, 0x34, 0x12]));
    assert_eq!(vec![2, 0, 0, 0], u32_to_le_bytes(2));
    for x in [0u32, 1, 255, 256, 65535, 1 << 24, u32::MAX] {
        assert_eq!(x, u32_from_le_bytes(&u32_to_le_bytes(x)));
    }
}

#[test]
fn module_without_header_draws_the_symbols() {
    let t = table(4, 3);
    let sync: Vec<i64> = vec![-1, -2];
    let bytes: Vec<u8> = vec![39, 141];
    let signal = module(&bytes, 2, &t, &sync, false).unwrap();
    let mut expected = sync.clone();
    for s in [0usize, 2, 1, 3, 2, 0, 3, 1] {
        expected.extend(t[s].iter());
    }
    assert_eq!(expected, signal);
}

#[test]
fn module_with_header_puts_the_length_first() {
    let t = table(2, 2);
    let bytes: Vec<u8> = vec![0xff];
    let signal = module(&bytes, 1, &t, &vec![], true).unwrap();
    // 32 header symbols (length 1, little endian) then 8 data symbols
    assert_eq!(signal.len(), (32 + 8) * 2);
    let header = ideal_demod(&signal[..64], &t, 2);
    assert_eq!(
        header,
        vec![0, 0, 0, 0, 0, 0, 0, 1, 0, 0, 0, 0, 0, 0, 0, 0, 0, 0, 0, 0, 0, 0, 0, 0, 0, 0, 0, 0, 0, 0, 0, 0]
    );
    assert_eq!(ideal_demod(&signal[64..], &t, 2), vec![1; 8]);
}

#[test]
fn module_refuses_symbols_that_do_not_fit() {
    let t = table(8, 2);
    assert!(matches!(module(&vec![1u8, 2u8], 3, &t, &vec![], false), Err(ModErr::InvalidInput)));
    // the header of 32 bits cannot be cut in 3-bit symbols
    assert!(matches!(module(&vec![1u8, 2u8, 3u8], 3, &t, &vec![], true), Err(ModErr::InvalidInput)));
    assert!(module(&vec![1u8, 2u8, 3u8], 3, &t, &vec![], false).is_ok());
}

#[test]
fn header_and_payload_sample_counts() {
    assert_eq!(32 * 7, header_samples(1, 7));
    assert_eq!(16 * 5, header_samples(2, 5));
    // 32 bits in 3-bit symbols: 11 symbols
    assert_eq!(11 * 4, header_samples(3, 4));
    assert_eq!(usize::MAX, header_samples(1, usize::MAX));
    assert_eq!(16 * 10, expected_samples(2, 1, 10));
    // 3 bytes in 5-bit symbols: 5 symbols
    assert_eq!(5 * 2, expected_samples(3, 5, 2));
    assert_eq!(0, expected_samples(0, 2, 9));
}

#[test]
fn split_and_truncate() {
    let mut v = vec![1, 2, 3, 4, 5];
    let head = split_header(&mut v, 2);
    assert_eq!(vec![1, 2], head);
    assert_eq!(vec![3, 4, 5], v);
    assert!(truncate_to_payload(&mut v, 2).is_ok());
    assert_eq!(vec![3, 4], v);
    assert!(matches!(truncate_to_payload(&mut v, 3), Err(DemodErr::SmallerThanExpected)));
    assert_eq!(vec![3, 4], v);
}

#[test]
fn symbols_to_bytes_reports_packing_errors() {
    match symbols_to_bytes(vec![], 1) {
        Err(DemodErr::Other(m)) => assert_eq!(
            m,
            "You tried to convert an empty vec of signals or used 0 as number of bit per signal"
        ),
        _ => panic!("expected an error"),
    }
    match symbols_to_bytes(vec![2], 1) {
        Err(DemodErr::Other(m)) => assert_eq!(m, "You are trying to convert and incorrect symbol"),
        _ => panic!("expected an error"),
    }
    assert_eq!(vec![0x80u8], symbols_to_bytes(vec![1, 0, 0, 0, 0, 0, 0, 0], 1).unwrap());
}

#[test]
fn modulation_roundtrip_with_ideal_demodulation() {
    let bytes: Vec<u8> = vec![39, 141, 173, 63, 182, 0, 255, 7];
    for n in [1u8, 2, 4, 8] {
        let t = table(1 << n, 3);
        let sync: Vec<i64> = vec![-5, -6, -7];
        for use_header in [false, true] {
            let mut signal = module(&bytes, n, &t, &sync, use_header).unwrap();
            // trailing samples added by the channel are cut by the header
            if use_header {
                signal.extend([9, 9, 9, 9, 9, 9]);
            }
            assert_eq!(bytes, demodule(signal, sync.len(), n, &t, 3, use_header).unwrap());
        }
    }
}

#[test]
fn header_announcing_too_much_is_refused() {
    let t = table(2, 1);
    let mut signal = module(&vec![1u8, 2u8], 1, &t, &vec![], true).unwrap();
    // drop the last data symbol
    signal.pop();
    assert!(matches!(
        demodule(signal, 0, 1, &t, 1, true),
        Err(DemodErr::SmallerThanExpected)
    ));
}

#[test]
fn header_symbols_give_the_payload_samples() {
    // 2-bit symbols of the bytes [3, 0, 0, 0], least significant byte first:
    // 3 bytes announced, 12 symbols of 5 samples
    let header: Vec<usize> = vec![0, 0, 0, 3, 0, 0, 0, 0, 0, 0, 0, 0, 0, 0, 0, 0];
    assert!(header_within_limits(&header, 2, 5));
    assert!(matches!(payload_samples(header.clone(), 2, 5, 60), Ok(60)));
    assert!(matches!(payload_samples(header.clone(), 2, 5, 1000), Ok(60)));
    assert!(matches!(
        payload_samples(header, 2, 5, 59),
        Err(DemodErr::SmallerThanExpected)
    ));
    // a symbol too wide for its bits is reported as packing reports it
    let bad: Vec<usize> = vec![4; 16];
    assert!(header_within_limits(&bad, 2, 5));
    match payload_samples(bad, 2, 5, 100) {
        Err(DemodErr::Other(m)) => assert_eq!("You are trying to convert and incorrect symbol", m),
        other => panic!("unexpected {:?}", other),
    }
    match payload_samples(vec![], 2, 5, 100) {
        Err(DemodErr::Other(m)) => assert_eq!(
            "You tried to convert an empty vec of signals or used 0 as number of bit per signal",
            m
        ),
        other => panic!("unexpected {:?}", other),
    }
    // not the four bytes of a u32
    assert!(!header_within_limits(&vec![0, 1, 2, 3], 2, 5));
    // u32::MAX bytes: their bits do not fit a u32
    assert!(!header_within_limits(&vec![255, 255, 255, 255], 8, 1));
    // 2^28 bytes: 2^31 bits fit, but not their samples
    assert!(!header_within_limits(&vec![0, 0, 0, 16], 8, usize::MAX));
    assert!(header_within_limits(&vec![0, 0, 0, 16], 8, 1));
    assert!(matches!(payload_samples(vec![0, 0, 0, 16], 8, 1, 1 << 28), Ok(v) if v == 1 << 28));
    let _ = expected_samples(3, 2, 5);
}
