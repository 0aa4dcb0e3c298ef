//! Parsing and generation of Nintendo Switch executable and asset formats
//! (NRO, NSO, KIP1, NACP, NPDM, PFS0, RomFS), with BLZ compression.

use vstd::prelude::*;

pub mod blz;
pub mod bytes;
pub mod elf;
pub mod raw;
pub mod read;
pub mod write;

verus! {

} // verus!
