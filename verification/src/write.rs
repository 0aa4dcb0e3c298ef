//! Builders that assemble the Switch executable and asset formats.
//!
//! Every builder returns its finished image as a byte buffer rather than
//! writing it, so the caller chooses where an artifact lands.

pub mod kip;
pub mod nacp;
pub mod npdm;
pub mod nro;
pub mod nso;
pub mod pfs0;
pub mod romfs;

pub use kip::Kip1Builder;
pub use nacp::NacpBuilder;
pub use nro::NroBuilder;
pub use npdm::NpdmBuilder;
pub use nso::NsoBuilder;
pub use pfs0::Pfs0Builder;
pub use romfs::RomFsBuilder;
