//! The scenarios of the modulations, with the waveforms built here.
use signal_codification::framing::{
    expected_samples, header_samples, module, split_header, symbols_to_bytes, truncate_to_payload,
    u32_from_le_bytes,
};
use signal_codification::qam::QamLayout;

fn time(rate: usize, samples: usize) -> Vec<f32> {
    let step_by = 1.0 / rate as f32;
    (0..samples).map(|v| v as f32 * step_by).collect()
}

fn internal_product(a: &[f32], b: &[f32], rate: usize) -> f32 {
    a.iter().zip(b.iter()).map(|(x, y)| x * y).sum::<f32>() * (1.0 / rate as f32)
}

struct Qam {
    rate: usize,
    sps: usize,
    layout: QamLayout,
    symbols: Vec<Vec<f32>>,
    base_x: Vec<f32>,
    base_y: Vec<f32>,
    costellation: Vec<f32>,
}

fn qam(freq: f32, symbol_period: f32, rate: usize, n: usize) -> Qam {
    let sps = (symbol_period * rate as f32) as usize;
    let layout = QamLayout::new(n);
    let side = layout.side as usize;
    let t = time(rate, sps);
    let cos: Vec<f32> = t.iter().map(|t| (t * 2.0 * std::f32::consts::PI * freq).cos()).collect();
    let sin: Vec<f32> = t.iter().map(|t| (t * 2.0 * std::f32::consts::PI * freq).sin()).collect();
    let h_energy = sps as f32 / rate as f32;
    let coeff: Vec<f32> = layout.coefficients.iter().map(|c| *c as f32).collect();
    let mut symbols = vec![vec![]; n];
    for r in 0..side {
        let i = side - 1 - r;
        for j in 0..side {
            symbols[layout.indeces_to_symbols[r][j]] =
                (0..sps).map(|k| coeff[j] * cos[k] - coeff[i] * sin[k]).collect();
        }
    }
    let m = (2.0 / h_energy).sqrt();
    let base_y = cos.iter().map(|c| m * c).collect();
    let base_x = sin.iter().map(|s| m * s).collect();
    let m = (h_energy / 2.).sqrt();
    let costellation = coeff.iter().map(|c| c * m).collect();
    Qam { rate, sps, layout, symbols, base_x, base_y, costellation }
}

impl Qam {
    fn nearest(&self, v: f32) -> usize {
        let mut best = 0;
        for (i, c) in self.costellation.iter().enumerate() {
            if (v - c).abs() < (v - self.costellation[best]).abs() {
                best = i;
            }
        }
        best
    }

    fn demodule(&self, samples: Vec<f32>) -> Vec<u8> {
        let raw: Vec<usize> = samples
            .chunks(self.sps)
            .map(|c| {
                let x = self.nearest(internal_product(&self.base_x, c, self.rate));
                let y = self.nearest(internal_product(&self.base_y, c, self.rate));
                self.layout.indeces_to_symbols[x][y]
            })
            .collect();
        symbols_to_bytes(raw, self.layout.bit_per_symbol).unwrap()
    }
}

#[test]
fn new_4qam() {
    let rate = 1000;
    let qam = qam(100.0, 1.0, rate, 4);
    let bytes: Vec<u8> = vec![39, 141]; // 0010 0111 1000 1101

    let mod_res: Vec<f32> = [0usize, 2, 1, 3, 2, 0, 3, 1]
        .iter()
        .map(|s| qam.symbols[*s].clone())
        .collect::<Vec<_>>()
        .concat();

    let real_mod_res =
        module(&bytes, qam.layout.bit_per_symbol, &qam.symbols, &vec![], false).unwrap();
    assert_eq!(mod_res, real_mod_res);

    assert_eq!(bytes, qam.demodule(mod_res));
}

#[test]
fn new_64qam() {
    let rate = 1000;
    let qam = qam(100.0, 1.0, rate, 64);
    let bytes: Vec<u8> = vec![39, 141, 173]; // 0010 01|11 1000| 1101 10|10 1101

    let mod_res: Vec<f32> = [9usize, 56, 54, 45]
        .iter()
        .map(|s| qam.symbols[*s].clone())
        .collect::<Vec<_>>()
        .concat();

    let real_mod_res =
        module(&bytes, qam.layout.bit_per_symbol, &qam.symbols, &vec![], false).unwrap();
    assert_eq!(mod_res, real_mod_res);

    assert_eq!(bytes, qam.demodule(mod_res));
}

#[test]
fn qam16_grid_matches_the_drawn_map() {
    let layout = QamLayout::new(16);
    // 10 110 1110 1010 / 11 111 1111 1011 / 1 101 1101 1001 / 0 100 1100 1000
    assert_eq!(
        layout.indeces_to_symbols,
        vec![
            vec![2, 6, 14, 10],
            vec![3, 7, 15, 11],
            vec![1, 5, 13, 9],
            vec![0, 4, 12, 8]
        ]
    );
    assert_eq!(layout.gray, vec![0, 1, 3, 2]);
    assert_eq!(layout.coefficients, vec![-3, -1, 1, 3]);
    assert_eq!(layout.bit_per_symbol, 4);
}

#[test]
fn qam_grids_hold_every_symbol_once() {
    for n in [4usize, 16, 64, 256] {
        let layout = QamLayout::new(n);
        let mut seen = vec![false; n];
        for row in layout.indeces_to_symbols.iter() {
            for s in row {
                assert!(!seen[*s]);
                seen[*s] = true;
            }
        }
        assert!(seen.iter().all(|b| *b));
        // neighbours differ in one bit
        let side = layout.side as usize;
        for r in 0..side {
            for c in 0..side {
                let s = layout.indeces_to_symbols[r][c];
                if c + 1 < side {
                    assert_eq!((s ^ layout.indeces_to_symbols[r][c + 1]).count_ones(), 1);
                }
                if r + 1 < side {
                    assert_eq!((s ^ layout.indeces_to_symbols[r + 1][c]).count_ones(), 1);
                }
            }
        }
    }
}

#[test]
fn test_bigger_signal() {
    let rate = 100;
    let freq: f32 = 1.0;
    let symbol_period: f32 = 1.0;
    let sps = (symbol_period * rate as f32) as usize;
    let t = time(rate, sps);
    let cos: Vec<f32> = t.iter().map(|t| (t * 2.0 * std::f32::consts::PI * freq).cos()).collect();
    let minus_cos: Vec<f32> = cos.iter().map(|x| x * -1.0).collect();
    let symbols = vec![cos.clone(), minus_cos];

    let bytes: Vec<u8> = vec![39, 141]; //0010 0111 1000 1101

    let modulated = module(&bytes, 1, &symbols, &vec![], true).unwrap();
    let mut input = [modulated, vec![0.0; 1]].concat();

    let decide = |samples: &[f32]| -> Vec<usize> {
        samples
            .chunks(sps)
            .map(|c| if internal_product(&cos, c, rate) >= 0.0 { 0 } else { 1 })
            .collect()
    };
    let header = split_header(&mut input, header_samples(1, sps));
    let num_bytes = symbols_to_bytes(decide(&header), 1).unwrap();
    let expected = u32_from_le_bytes(&num_bytes);
    assert_eq!(2, expected);
    truncate_to_payload(&mut input, expected_samples(expected, 1, sps)).unwrap();
    let demod_bytes = symbols_to_bytes(decide(&input), 1).unwrap();

    assert_eq!(bytes, demod_bytes);
}

#[test]
fn qam_gray_rows_are_i_xor_half_i() {
    for n in [4usize, 16, 64, 256] {
        let layout = QamLayout::new(n);
        for (i, g) in layout.gray.iter().enumerate() {
            assert_eq!((i ^ (i >> 1)) as u8, *g);
        }
    }
}
