# signal_codification

Modulation and demodulation of arbitrary bytes, for backups on cassette tapes.

`src/` is a Verus library.  It holds the logic that turns bytes into a
modulated signal and back, with its contracts and proofs:

- `bits`: the bit-stream model (bytes and symbols as groups of one stream).
- `symbols`: unpacking bytes into symbols of `n` bits (`RawSymbols`,
  `RawSymbolIterator`), packing symbols into bytes
  (`collect_bytes_from_raw_bytes`), and drawing the waveform of each symbol;
  the two round trips are proved.
- `framing`: the layout of a modulated signal (sync, little-endian length
  header, payload) and the steps of demodulation, including reading the
  length header (`payload_samples`); an ideal demodulation of a modulated
  signal is proved to give the bytes back.
- `qam`: the Gray-coded constellation of M-QAM; every cell holds a different
  symbol and neighbouring cells differ in one bit; the code is `i ^ (i >> 1)`.
- `routing`: the decisions taken on each port that the audio server
  announces when the cassette player is routed through the tape simulator.
- `metrics`, `samples`, `mfsk`, `bpsk`, `random`: bit error counting (all 8
  bits of each byte), padding and thinning of sample vectors, frequency shift
  keying indices, sync symbols and random test data.

`app/` is the program around it: floating-point signals, the BPSK and M-QAM
waveforms and their demodulators, the channel simulator and its window, audio
playback and recording, the PipeWire event loop, and the command line.
