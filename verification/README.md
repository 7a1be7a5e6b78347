# SBC codec, verified

A library for the low-complexity subband codec (SBC) of Bluetooth audio, with its mSBC
variant, written in Verus: every function of `src/` carries a contract that the verifier
proves.

- `bits`: reading and writing bit streams, most significant bit first.
- `decoder`: frame headers, bit allocation, CRC, frame decoding and the synthesis
  filter bank, with a decoder that keeps the state of both channels.
- `raw`: the frame interface with plain integer parameters, frame sizes and bit rates,
  decoding with loss concealment; `raw::analysis` holds the analysis filter bank and
  `raw::encode` the encoder.
- `lib.rs`: a streaming decoder over a buffer of frames.

`app/` gives the decoder's errors a `Display` for their users. `tests/` holds the tests.
