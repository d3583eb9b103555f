# rustxxx

A modem for FT8-style weak-signal links, in two parts.

`src/` is the verified library (Verus). It holds everything that is
integer or text logic, each public function with a contract:

- `pack77`, `unpack77`, `callsign`, `payload`, `alnum`, `charsets`, `text`,
  `bignum`, `base`, `message`: packing and unpacking of the 77-bit message
  payloads (standard messages with calls and grid, free text, telemetry);
  `roundtrip` proves that unpacking gives back what packing took.
- `crc`, `ecc`, `gray`, `sync`, `bits`: the layers of the channel coding:
  CRC framing, LDPC parity and bit-flip decoding, Gray mapping of bits to
  tones, and the Costas sync groups; `modem` chains them, with loop-back at
  each layer, and proves that a payload sent down comes back up, given
  LDPC tables that agree with each other and a payload whose padding bits
  (including the CRC bit the CRC layer leaves in them) are clear.
- `bands`, `blocks`, `store`: the receiver's decisions: which frequency
  bands and bins to search, how its input blocks are staggered, and the
  store of decoded messages, each handed out once and dropped once stale.
- `protocol`, `units`: the FT8 framing parameters and unit types.

`app/` is ordinary Rust around the library: GFSK audio synthesis, the
spectrum waterfall, sync correlation scores, soft-decision (sum-product)
decoding, resampling, audio devices and a debug window, all floating point or
device I/O.

`tests/` exercises the library.
