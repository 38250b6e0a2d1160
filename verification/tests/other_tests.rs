use signal_codification::random::{get_bytes, get_random_bits};
use signal_codification::bpsk::sync_symbol_indices;
use signal_codification::metrics::count_bit_errors;
use signal_codification::mfsk::{bit_groups_to_indices, bits_to_index};
use signal_codification::samples::{append_silence, prepend_silence, subsample};
use signal_codification::symbols::{bits_per_symbol_of, waveforms_of};

#[test]
fn bit_errors_count_all_eight_bits() {
    assert_eq!(0, count_bit_errors(&vec![1, 2, 3], &vec![1, 2, 3]));
    // 0b0000_0001 vs 0b0000_0010: two bits
    assert_eq!(2, count_bit_errors(&vec![1], &vec![2]));
    // the highest bit counts too
    assert_eq!(1, count_bit_errors(&vec![0x80], &vec![0x00]));
    assert_eq!(8, count_bit_errors(&vec![0xff], &vec![0x00]));
    assert_eq!(16, count_bit_errors(&vec![0xff, 0x00], &vec![0x00, 0xff]));
    // only as far as the shorter sequence goes
    assert_eq!(1, count_bit_errors(&vec![1, 5, 6], &vec![0]));
    assert_eq!(0, count_bit_errors(&vec![], &vec![7, 7]));
}

#[test]
fn silence_before_and_after() {
    let mut v = vec![1.5f32, -2.0];
    prepend_silence(&mut v, 3, 0.0);
    assert_eq!(vec![0.0, 0.0, 0.0, 1.5, -2.0], v);
    append_silence(&mut v, 2, 0.0);
    assert_eq!(vec![0.0, 0.0, 0.0, 1.5, -2.0, 0.0, 0.0], v);
    let mut w: Vec<f32> = vec![];
    prepend_silence(&mut w, 0, 0.0);
    assert!(w.is_empty());
}

#[test]
fn subsample_keeps_one_point_every_step() {
    let points: Vec<[f64; 2]> = (0..10).map(|i| [i as f64, 0.0]).collect();
    let kept = subsample(&points, 4);
    assert_eq!(vec![[0.0, 0.0], [4.0, 0.0], [8.0, 0.0]], kept);
    assert_eq!(points, subsample(&points, 1));
    assert_eq!(vec![[0.0, 0.0]], subsample(&points, 100));
    let none: Vec<u8> = vec![];
    assert!(subsample(&none, 0).is_empty());
}

#[test]
fn mfsk_indices_least_significant_bit_first() {
    assert_eq!(0, bits_to_index(&[]));
    assert_eq!(1, bits_to_index(&[1, 0, 0]));
    assert_eq!(6, bits_to_index(&[0, 1, 1]));
    assert_eq!(13, bits_to_index(&[5, 0, 9, 1]));
    // groups of 4 bits, the last one shorter
    assert_eq!(
        vec![1, 8, 3],
        bit_groups_to_indices(&vec![1, 0, 0, 0, 0, 0, 0, 1, 1, 1], 4)
    );
    assert!(bit_groups_to_indices(&vec![], 3).is_empty());
}

#[test]
fn mfsk_index_over_a_full_word() {
    let ones = vec![1u8; usize::BITS as usize];
    assert_eq!(usize::MAX, bits_to_index(&ones));
    let mut top = vec![0u8; usize::BITS as usize];
    top[usize::BITS as usize - 1] = 1;
    assert_eq!(1usize << (usize::BITS - 1), bits_to_index(&top));
    assert_eq!(
        vec![usize::MAX, 1],
        bit_groups_to_indices(&[ones.clone(), vec![1u8]].concat(), usize::BITS as usize)
    );
}

#[test]
fn bits_per_symbol_is_the_log2() {
    assert_eq!(0, bits_per_symbol_of(0));
    assert_eq!(0, bits_per_symbol_of(1));
    assert_eq!(1, bits_per_symbol_of(2));
    assert_eq!(1, bits_per_symbol_of(3));
    assert_eq!(4, bits_per_symbol_of(16));
    assert_eq!(4, bits_per_symbol_of(31));
    assert_eq!(63, bits_per_symbol_of(usize::MAX));
}

#[test]
fn sync_symbols_and_their_signal() {
    let indices = sync_symbol_indices(&vec![1, 1, 0, 0, 7, 0]);
    assert_eq!(vec![1, 1, 0, 0, 1, 0], indices);
    let table = vec![vec![1.0f32, 0.5], vec![-1.0, -0.5]];
    assert_eq!(
        vec![-1.0, -0.5, 1.0, 0.5],
        waveforms_of(&vec![1, 0], &table)
    );
    assert!(waveforms_of(&vec![], &table).is_empty());
}

#[test]
fn random_bytes_and_bits() {
    let bytes = get_bytes(1000);
    assert_eq!(1000, bytes.len());
    assert!(bytes.iter().all(|b| *b < 255));
    // a thousand draws from 255 values are not all the same
    assert!(bytes.iter().any(|b| *b != bytes[0]));
    assert!(get_bytes(0).is_empty());
    let bits = get_random_bits(3, 400);
    assert_eq!(1200, bits.len());
    assert!(bits.iter().all(|b| *b <= 1));
    assert!(bits.iter().any(|b| *b == 1) && bits.iter().any(|b| *b == 0));
}
