//! Validated parsers over the raw binary structures.
//!
//! Each parser checks magic numbers, sizes and offsets, and offers accessors
//! over the parsed fields.

pub mod mod0;
pub mod nacp;
pub mod npdm;
pub mod nso;
pub mod romfs;

pub use nacp::{FromBytesError as NacpFromBytesError, Nacp, SetLanguage};
pub use npdm::{FromBytesError as NpdmFromBytesError, Npdm};
pub use nso::{FromBytesError as NsoFromBytesError, Nso};
pub use romfs::{
    DirIterator, FromBytesError as RomFsFromBytesError, OpenError as RomFsOpenError, RomFs,
    RomFsDir, RomFsEntry, RomFsFile, RootDirError as RomFsRootDirError,
};
