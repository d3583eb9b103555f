//! Verified core of an FT8-style weak-signal modem: message payload packing,
//! CRC framing, LDPC parity, Gray mapping and Costas sync framing.

pub mod units;
pub mod protocol;
pub mod bits;
pub mod sync;
pub mod gray;
pub mod text;
pub mod base;
pub mod charsets;
pub mod payload;
pub mod crc;
pub mod ecc;
pub mod alnum;
pub mod message;
pub mod callsign;
pub mod bignum;
pub mod unpack77;
pub mod pack77;
pub mod roundtrip;
pub mod modem;
pub mod bands;
pub mod store;
pub mod blocks;
