//! The binary structures of the formats, as plain values with their
//! little-endian decodings.

pub mod kip;
pub mod mod0;
pub mod nacp;
pub mod npdm;
pub mod nro;
pub mod nso;
pub mod pfs0;
pub mod romfs;
