//! Modulation and demodulation of arbitrary bytes.
//!
//! Bytes are cut into symbols of a few bits; each symbol is sent as one
//! waveform of a modulation (BPSK, M-QAM, ...), optionally after a
//! synchronisation signal and a header giving the number of bytes.  The
//! receiver recognises the waveforms and packs the symbols back into bytes.
//!
//! This crate holds that logic, proved: the bit packing ([`symbols`]), the
//! framing of a modulated signal ([`framing`]), the M-QAM constellation
//! ([`qam`]) and the small tools around them.  The waveforms themselves are
//! floating-point signals and are built by the programs that use the crate.

pub mod bits;
pub mod bpsk;
pub mod framing;
pub mod metrics;
pub mod mfsk;
pub mod qam;
pub mod random;
pub mod routing;
pub mod samples;
pub mod symbols;
