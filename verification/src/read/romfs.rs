//! RomFS reading: header validation, directory and file lookup by path, and
//! iteration over a directory's entries.

use vstd::prelude::*;

use vstd::string::StringSliceAdditionalSpecFns;

use crate::bytes::{bytes_eq, read_name, sat_usize, stored_name};
use crate::raw::romfs::{
    dir_entry_at, file_entry_at, read_dir_entry, read_file_entry, read_romfs_header,
    romfs_header_at, RomFsDirEntry, RomFsFileEntry, RomFsHeader, ROMFS_DIR_ENTRY_SIZE,
    ROMFS_FILE_ENTRY_SIZE, ROMFS_HEADER_SIZE,
};

verus! {

/// Errors of [`RomFs::try_from_bytes`] and [`RomFsFile::data`].
#[derive(Debug, PartialEq, Eq, Structural)]
pub enum FromBytesError {
    /// The buffer cannot hold the header.
    BufferTooSmall {
        /// Number of bytes required
        required: usize,
        /// Number of bytes available
        available: usize,
    },
    /// The header size field is not 0x50.
    InvalidHeaderSize {
        /// The size found
        found: usize,
    },
    /// The directory metadata table's offset plus size overflows.
    DirMetaTableBoundsOverflow {
        /// Table offset
        offset: usize,
        /// Table size
        size: usize,
    },
    /// The directory metadata table extends beyond the buffer.
    DirMetaTableOutOfBounds {
        /// Table offset
        offset: usize,
        /// Table size
        size: usize,
        /// Buffer size
        available: usize,
    },
    /// The directory hash table's offset plus size overflows.
    DirHashTableBoundsOverflow {
        /// Table offset
        offset: usize,
        /// Table size
        size: usize,
    },
    /// The directory hash table extends beyond the buffer.
    DirHashTableOutOfBounds {
        /// Table offset
        offset: usize,
        /// Table size
        size: usize,
        /// Buffer size
        available: usize,
    },
    /// The file metadata table's offset plus size overflows.
    FileMetaTableBoundsOverflow {
        /// Table offset
        offset: usize,
        /// Table size
        size: usize,
    },
    /// The file metadata table extends beyond the buffer.
    FileMetaTableOutOfBounds {
        /// Table offset
        offset: usize,
        /// Table size
        size: usize,
        /// Buffer size
        available: usize,
    },
    /// The file hash table's offset plus size overflows.
    FileHashTableBoundsOverflow {
        /// Table offset
        offset: usize,
        /// Table size
        size: usize,
    },
    /// The file hash table extends beyond the buffer.
    FileHashTableOutOfBounds {
        /// Table offset
        offset: usize,
        /// Table size
        size: usize,
        /// Buffer size
        available: usize,
    },
    /// The file data region starts beyond the buffer.
    FileDataOffsetOutOfBounds {
        /// Data offset
        offset: usize,
        /// Buffer size
        available: usize,
    },
    /// A file's absolute data position overflows.
    FileDataBoundsOverflow {
        /// Base file data offset from the header
        file_data_offset: usize,
        /// The file's data offset
        data_offset: usize,
        /// The file's data size
        data_size: usize,
    },
    /// A file's data extends beyond the buffer.
    FileDataOutOfBounds {
        /// The file's data offset
        data_offset: usize,
        /// The file's data size
        data_size: usize,
        /// Buffer size
        available: usize,
    },
}

/// Error of [`RomFs::root_dir`]: the root entry does not fit the directory
/// table.
#[derive(Debug, PartialEq, Eq, Structural)]
pub struct RootDirError {
    /// Number of bytes required
    pub required: usize,
    /// Number of bytes available
    pub available: usize,
}

/// Errors of [`RomFs::open`].
#[derive(Debug, PartialEq, Eq, Structural)]
pub enum OpenError {
    /// An entry or its name does not fit its metadata table.
    BufferTooSmall {
        /// Number of bytes required
        required: usize,
        /// Number of bytes available
        available: usize,
    },
    /// The path names nothing.
    PathNotFound,
    /// A directory of the path does not exist.
    DirNotFound,
    /// The file does not exist.
    FileNotFound,
}

/// The check of one table: its offset plus size must not overflow, and must
/// stay within the buffer.
pub open spec fn table_error(
    offset: usize,
    size: usize,
    len: int,
    overflow: FromBytesError,
    out_of_bounds: FromBytesError,
) -> Option<FromBytesError> {
    if offset + size > usize::MAX {
        Some(overflow)
    } else if offset + size > len {
        Some(out_of_bounds)
    } else {
        None
    }
}

/// The first check [`RomFs::try_from_bytes`] fails on `b`: the header must
/// fit and have size 0x50; then the directory metadata, directory hash, file
/// metadata and file hash tables must lie within the buffer, in that order;
/// then the file data region must start within it.
pub open spec fn romfs_error(b: Seq<u8>) -> Option<FromBytesError> {
    let n = b.len() as usize;
    if b.len() < 0x50 {
        Some(FromBytesError::BufferTooSmall { required: 0x50, available: n })
    } else {
        let h = romfs_header_at(b);
        let dmo = h.dir_meta_table_offset as usize;
        let dms = h.dir_meta_table_size as usize;
        let dho = h.dir_hash_table_offset as usize;
        let dhs = h.dir_hash_table_size as usize;
        let fmo = h.file_meta_table_offset as usize;
        let fms = h.file_meta_table_size as usize;
        let fho = h.file_hash_table_offset as usize;
        let fhs = h.file_hash_table_size as usize;
        if h.header_size as usize != 0x50 {
            Some(FromBytesError::InvalidHeaderSize { found: h.header_size as usize })
        } else if table_error(
            dmo,
            dms,
            b.len() as int,
            FromBytesError::DirMetaTableBoundsOverflow { offset: dmo, size: dms },
            FromBytesError::DirMetaTableOutOfBounds { offset: dmo, size: dms, available: n },
        ) is Some {
            table_error(
                dmo,
                dms,
                b.len() as int,
                FromBytesError::DirMetaTableBoundsOverflow { offset: dmo, size: dms },
                FromBytesError::DirMetaTableOutOfBounds { offset: dmo, size: dms, available: n },
            )
        } else if table_error(
            dho,
            dhs,
            b.len() as int,
            FromBytesError::DirHashTableBoundsOverflow { offset: dho, size: dhs },
            FromBytesError::DirHashTableOutOfBounds { offset: dho, size: dhs, available: n },
        ) is Some {
            table_error(
                dho,
                dhs,
                b.len() as int,
                FromBytesError::DirHashTableBoundsOverflow { offset: dho, size: dhs },
                FromBytesError::DirHashTableOutOfBounds { offset: dho, size: dhs, available: n },
            )
        } else if table_error(
            fmo,
            fms,
            b.len() as int,
            FromBytesError::FileMetaTableBoundsOverflow { offset: fmo, size: fms },
            FromBytesError::FileMetaTableOutOfBounds { offset: fmo, size: fms, available: n },
        ) is Some {
            table_error(
                fmo,
                fms,
                b.len() as int,
                FromBytesError::FileMetaTableBoundsOverflow { offset: fmo, size: fms },
                FromBytesError::FileMetaTableOutOfBounds { offset: fmo, size: fms, available: n },
            )
        } else if table_error(
            fho,
            fhs,
            b.len() as int,
            FromBytesError::FileHashTableBoundsOverflow { offset: fho, size: fhs },
            FromBytesError::FileHashTableOutOfBounds { offset: fho, size: fhs, available: n },
        ) is Some {
            table_error(
                fho,
                fhs,
                b.len() as int,
                FromBytesError::FileHashTableBoundsOverflow { offset: fho, size: fhs },
                FromBytesError::FileHashTableOutOfBounds { offset: fho, size: fhs, available: n },
            )
        } else if h.file_data_offset as usize > b.len() {
            Some(
                FromBytesError::FileDataOffsetOutOfBounds {
                    offset: h.file_data_offset as usize,
                    available: n,
                },
            )
        } else {
            None
        }
    }
}

/// Where the directory metadata table starts.
pub open spec fn dir_table_base(b: Seq<u8>) -> int {
    romfs_header_at(b).dir_meta_table_offset as usize as int
}

/// Where the file metadata table starts.
pub open spec fn file_table_base(b: Seq<u8>) -> int {
    romfs_header_at(b).file_meta_table_offset as usize as int
}

/// The directory metadata table.
pub open spec fn dir_table(b: Seq<u8>) -> Seq<u8> {
    let o = dir_table_base(b);
    b.subrange(o, o + romfs_header_at(b).dir_meta_table_size as usize as int)
}

/// The file metadata table.
pub open spec fn file_table(b: Seq<u8>) -> Seq<u8> {
    let o = file_table_base(b);
    b.subrange(o, o + romfs_header_at(b).file_meta_table_size as usize as int)
}

/// Reading the entry of `entry_size` bytes at `o` of table `t` (which starts
/// at `base` in the image): the bytes of its name, or the `(required,
/// available)` sizes when the entry or its name does not fit the table.
pub open spec fn entry_name_lookup(t: Seq<u8>, base: int, o: int, entry_size: int, name_len: int) -> Result<Seq<u8>, (usize, usize)> {
    let available = (base + t.len()) as usize;
    let name_end = o + entry_size + name_len;
    if o + entry_size > t.len() {
        Err((sat_usize(o + entry_size), available))
    } else if name_end > usize::MAX {
        Err((usize::MAX, available))
    } else if name_end > t.len() {
        Err((sat_usize(base + name_end), available))
    } else {
        Ok(t.subrange(o + entry_size, name_end))
    }
}

/// The directory entry at `o` of directory table `t` with its name bytes.
pub open spec fn dir_lookup(t: Seq<u8>, base: int, o: int) -> Result<(RomFsDirEntry, Seq<u8>), (usize, usize)> {
    let e = dir_entry_at(t, o);
    match entry_name_lookup(t, base, o, 0x18, e.name_len as int) {
        Ok(nb) => Ok((e, nb)),
        Err(x) => Err(x),
    }
}

/// The file entry at `o` of file table `t` with its name bytes.
pub open spec fn file_lookup(t: Seq<u8>, base: int, o: int) -> Result<(RomFsFileEntry, Seq<u8>), (usize, usize)> {
    let e = file_entry_at(t, o);
    match entry_name_lookup(t, base, o, 0x20, e.name_len as int) {
        Ok(nb) => Ok((e, nb)),
        Err(x) => Err(x),
    }
}

/// Following the sibling chain from directory `at`: the first directory
/// whose name reads as `name`. A chain longer than `fuel` entries loops back
/// on itself; the walk stops there.
pub open spec fn find_dir_walk(t: Seq<u8>, base: int, at: u32, name: Seq<u8>, fuel: nat) -> Result<(RomFsDirEntry, Seq<u8>), OpenError>
    decreases fuel,
{
    if at == u32::MAX || fuel == 0 {
        Err(OpenError::DirNotFound)
    } else {
        match dir_lookup(t, base, at as int) {
            Err((required, available)) => Err(OpenError::BufferTooSmall { required, available }),
            Ok((e, nb)) => if stored_name(nb) == name {
                Ok((e, nb))
            } else {
                find_dir_walk(t, base, e.sibling_offset, name, (fuel - 1) as nat)
            },
        }
    }
}

/// Following the sibling chain from file `at`: the first file whose name
/// reads as `name`, stopping as [`find_dir_walk`] does.
pub open spec fn find_file_walk(t: Seq<u8>, base: int, at: u32, name: Seq<u8>, fuel: nat) -> Result<(RomFsFileEntry, Seq<u8>), OpenError>
    decreases fuel,
{
    if at == u32::MAX || fuel == 0 {
        Err(OpenError::FileNotFound)
    } else {
        match file_lookup(t, base, at as int) {
            Err((required, available)) => Err(OpenError::BufferTooSmall { required, available }),
            Ok((e, nb)) => if stored_name(nb) == name {
                Ok((e, nb))
            } else {
                find_file_walk(t, base, e.sibling_offset, name, (fuel - 1) as nat)
            },
        }
    }
}

/// A parsed RomFS image.
pub struct RomFs<'a> {
    bytes: &'a [u8],
    header: RomFsHeader,
}

impl<'a> View for RomFs<'a> {
    type V = Seq<u8>;

    /// The image's bytes.
    closed spec fn view(&self) -> Seq<u8> {
        self.bytes@
    }
}

impl<'a> RomFs<'a> {
    /// The image passed the checks and its header is decoded.
    #[verifier::type_invariant]
    spec fn valid(self) -> bool {
        &&& romfs_error(self.bytes@) is None
        &&& self.bytes@.len() <= usize::MAX
        &&& self.header == romfs_header_at(self.bytes@)
    }
}

/// What a directory handle refers to.
pub struct RomFsDirView {
    /// The image
    pub image: Seq<u8>,
    /// The directory's entry
    pub entry: RomFsDirEntry,
    /// The bytes of its name as read (empty when not valid UTF-8)
    pub name: Seq<u8>,
}

/// A directory of a RomFS image.
pub struct RomFsDir<'a> {
    romfs: &'a RomFs<'a>,
    entry: RomFsDirEntry,
    name: &'a str,
}

impl<'a> View for RomFsDir<'a> {
    type V = RomFsDirView;

    closed spec fn view(&self) -> RomFsDirView {
        RomFsDirView { image: self.romfs@, entry: self.entry, name: self.name.spec_bytes() }
    }
}

/// What a file handle refers to.
pub struct RomFsFileView {
    /// The image
    pub image: Seq<u8>,
    /// The file's entry
    pub entry: RomFsFileEntry,
    /// The bytes of its name as read (empty when not valid UTF-8)
    pub name: Seq<u8>,
}

/// A file of a RomFS image.
pub struct RomFsFile<'a> {
    romfs: &'a RomFs<'a>,
    entry: RomFsFileEntry,
    name: &'a str,
}

impl<'a> View for RomFsFile<'a> {
    type V = RomFsFileView;

    closed spec fn view(&self) -> RomFsFileView {
        RomFsFileView { image: self.romfs@, entry: self.entry, name: self.name.spec_bytes() }
    }
}

/// A directory's entry: a file or a subdirectory.
pub enum RomFsEntry<'a> {
    /// File entry
    File(RomFsFile<'a>),
    /// Directory entry
    Dir(RomFsDir<'a>),
}

/// Where a walk over a directory's entries stands.
pub struct DirIteratorView {
    /// The image
    pub image: Seq<u8>,
    /// The next subdirectory to visit (`u32::MAX` when done)
    pub next_dir_offset: u32,
    /// The next file to visit (`u32::MAX` when done)
    pub next_file_offset: u32,
}

/// A walk over a directory's entries: subdirectories, then files.
pub struct DirIterator<'a> {
    romfs: &'a RomFs<'a>,
    next_dir_offset: u32,
    next_file_offset: u32,
}

impl<'a> View for DirIterator<'a> {
    type V = DirIteratorView;

    closed spec fn view(&self) -> DirIteratorView {
        DirIteratorView {
            image: self.romfs@,
            next_dir_offset: self.next_dir_offset,
            next_file_offset: self.next_file_offset,
        }
    }
}

impl<'a> RomFs<'a> {
    /// Parse a RomFS image, checking that the header fits and has size
    /// 0x50, that the directory metadata, directory hash, file metadata and
    /// file hash tables lie within the buffer (in that order), and that the
    /// file data region starts within it.
    pub fn try_from_bytes(bytes: &'a [u8]) -> (r: Result<Self, FromBytesError>)
        ensures
            match romfs_error(bytes@) {
                Some(e) => r == Err::<Self, FromBytesError>(e),
                None => r matches Ok(rfs) && rfs@ == bytes@,
            },
    {
        if bytes.len() < ROMFS_HEADER_SIZE {
            return Err(
                FromBytesError::BufferTooSmall { required: ROMFS_HEADER_SIZE, available: bytes.len() },
            );
        }
        let header = read_romfs_header(bytes);
        if header.header_size as usize != ROMFS_HEADER_SIZE {
            return Err(FromBytesError::InvalidHeaderSize { found: header.header_size as usize });
        }
        let n = bytes.len();
        // Directory metadata table.
        let dir_off = header.dir_meta_table_offset as usize;
        let dir_size = header.dir_meta_table_size as usize;
        let dir_end = match dir_off.checked_add(dir_size) {
            Some(e) => e,
            None => {
                return Err(
                    FromBytesError::DirMetaTableBoundsOverflow { offset: dir_off, size: dir_size },
                );
            },
        };
        if dir_end > n {
            return Err(
                FromBytesError::DirMetaTableOutOfBounds {
                    offset: dir_off,
                    size: dir_size,
                    available: n,
                },
            );
        }
        // Directory hash table.
        let dir_hash_off = header.dir_hash_table_offset as usize;
        let dir_hash_size = header.dir_hash_table_size as usize;
        let dir_hash_end = match dir_hash_off.checked_add(dir_hash_size) {
            Some(e) => e,
            None => {
                return Err(
                    FromBytesError::DirHashTableBoundsOverflow {
                        offset: dir_hash_off,
                        size: dir_hash_size,
                    },
                );
            },
        };
        if dir_hash_end > n {
            return Err(
                FromBytesError::DirHashTableOutOfBounds {
                    offset: dir_hash_off,
                    size: dir_hash_size,
                    available: n,
                },
            );
        }
        // File metadata table.
        let file_off = header.file_meta_table_offset as usize;
        let file_size = header.file_meta_table_size as usize;
        let file_end = match file_off.checked_add(file_size) {
            Some(e) => e,
            None => {
                return Err(
                    FromBytesError::FileMetaTableBoundsOverflow { offset: file_off, size: file_size },
                );
            },
        };
        if file_end > n {
            return Err(
                FromBytesError::FileMetaTableOutOfBounds {
                    offset: file_off,
                    size: file_size,
                    available: n,
                },
            );
        }
        // File hash table.
        let file_hash_off = header.file_hash_table_offset as usize;
        let file_hash_size = header.file_hash_table_size as usize;
        let file_hash_end = match file_hash_off.checked_add(file_hash_size) {
            Some(e) => e,
            None => {
                return Err(
                    FromBytesError::FileHashTableBoundsOverflow {
                        offset: file_hash_off,
                        size: file_hash_size,
                    },
                );
            },
        };
        if file_hash_end > n {
            return Err(
                FromBytesError::FileHashTableOutOfBounds {
                    offset: file_hash_off,
                    size: file_hash_size,
                    available: n,
                },
            );
        }
        // The file data region has no size field; only its start is checked.
        let data_off = header.file_data_offset as usize;
        if data_off > n {
            return Err(FromBytesError::FileDataOffsetOutOfBounds { offset: data_off, available: n });
        }
        Ok(RomFs { bytes, header })
    }

    /// The header.
    pub fn header(&self) -> (r: &RomFsHeader)
        ensures
            *r == romfs_header_at(self@),
    {
        proof {
            use_type_invariant(self);
        }
        &self.header
    }

    /// The directory metadata table.
    fn dir_meta_table(&self) -> (r: &'a [u8])
        ensures
            r@ == dir_table(self@),
    {
        proof {
            use_type_invariant(self);
        }
        let offset = self.header.dir_meta_table_offset as usize;
        let size = self.header.dir_meta_table_size as usize;
        vstd::slice::slice_subrange(self.bytes, offset, offset + size)
    }

    /// The file metadata table.
    fn file_meta_table(&self) -> (r: &'a [u8])
        ensures
            r@ == file_table(self@),
    {
        proof {
            use_type_invariant(self);
        }
        let offset = self.header.file_meta_table_offset as usize;
        let size = self.header.file_meta_table_size as usize;
        vstd::slice::slice_subrange(self.bytes, offset, offset + size)
    }

    /// The root directory: the entry at the start of the directory table.
    pub fn root_dir(&'a self) -> (r: Result<RomFsDir<'a>, RootDirError>)
        ensures
            match dir_lookup(dir_table(self@), dir_table_base(self@), 0) {
                Err((required, available)) => r == Err::<RomFsDir<'a>, RootDirError>(
                    RootDirError { required, available },
                ),
                Ok((e, nb)) => r matches Ok(d) && d@ == (RomFsDirView {
                    image: self@,
                    entry: e,
                    name: stored_name(nb),
                }),
            },
    {
        match RomFsDir::from_offset(self, 0) {
            Ok(d) => Ok(d),
            Err((required, available)) => Err(RootDirError { required, available }),
        }
    }

    /// Open a file by path: leading `/` are ignored, the components are
    /// separated by `/`, the last names the file and the others the
    /// directories leading to it from the root.
    pub fn open(&'a self, path: &str) -> (r: Result<RomFsFile<'a>, OpenError>)
        ensures
            match open_spec(self@, path.spec_bytes()) {
                Err(e) => r == Err::<RomFsFile<'a>, OpenError>(e),
                Ok((e, nb)) => r matches Ok(f) && f@ == (RomFsFileView {
                    image: self@,
                    entry: e,
                    name: stored_name(nb),
                }),
            },
    {
        let p = path.as_bytes();
        let mut start: usize = 0;
        assert(p@.skip(0) =~= p@);
        while start < p.len() && p[start] == 0x2F
            invariant
                start <= p@.len(),
                trim_slashes(p@) == trim_slashes(p@.skip(start as int)),
            decreases p.len() - start,
        {
            assert(p@.skip(start as int).drop_first() =~= p@.skip(start + 1));
            start = start + 1;
        }
        let rest = vstd::slice::slice_subrange(p, start, p.len());
        assert(rest@ =~= p@.skip(start as int));
        assert(trim_slashes(rest@) == rest@);
        if rest.len() == 0 {
            return Err(OpenError::PathNotFound);
        }
        let mut dir = match self.root_dir() {
            Ok(d) => d,
            Err(e) => {
                return Err(OpenError::BufferTooSmall { required: e.required, available: e.available });
            },
        };
        assert(rest@.skip(0) =~= rest@);
        // Walk the directories named by every component but the last.
        let mut comp_start: usize = 0;
        loop
            invariant
                comp_start <= rest@.len(),
                p@ == path.spec_bytes(),
                dir.romfs@ == self@,
                open_spec(self@, p@) == open_from(self@, dir.entry, rest@.skip(comp_start as int)),
            decreases rest@.len() - comp_start,
        {
            let slash = find_slash(rest, comp_start);
            if slash == rest.len() {
                let name = vstd::slice::slice_subrange(rest, comp_start, rest.len());
                proof {
                    lemma_open_from_last(self@, dir.entry, rest@.skip(comp_start as int));
                    assert(name@ =~= rest@.skip(comp_start as int));
                }
                return dir.find_file(name);
            }
            let name = vstd::slice::slice_subrange(rest, comp_start, slash);
            proof {
                lemma_open_from_step(self@, dir.entry, rest@.skip(comp_start as int), slash - comp_start);
                assert(name@ =~= rest@.skip(comp_start as int).take(slash - comp_start));
                assert(rest@.skip(comp_start as int).skip(slash - comp_start + 1) =~= rest@.skip(slash + 1));
            }
            dir = match dir.find_dir(name) {
                Ok(d) => d,
                Err(e) => {
                    return Err(e);
                },
            };
            comp_start = slash + 1;
        }
    }
}

/// `p` without its leading `/` bytes.
pub open spec fn trim_slashes(p: Seq<u8>) -> Seq<u8>
    decreases p.len(),
{
    if p.len() > 0 && p[0] == 0x2F {
        trim_slashes(p.drop_first())
    } else {
        p
    }
}

/// The index of the first `/` in `p`, or its length when it has none.
pub open spec fn first_slash(p: Seq<u8>) -> int
    decreases p.len(),
{
    if p.len() == 0 {
        0
    } else if p[0] == 0x2F {
        0
    } else {
        1 + first_slash(p.drop_first())
    }
}

/// Resolving the `/`-separated components `p` from directory `dir`: every
/// component but the last names a subdirectory, the last a file.
pub open spec fn open_from(b: Seq<u8>, dir: RomFsDirEntry, p: Seq<u8>) -> Result<(RomFsFileEntry, Seq<u8>), OpenError>
    decreases p.len(),
{
    let k = first_slash(p);
    if k >= p.len() || k < 0 {
        find_file_walk(file_table(b), file_table_base(b), dir.file_offset, p, file_table(b).len() + 1)
    } else {
        match find_dir_walk(
            dir_table(b),
            dir_table_base(b),
            dir.child_offset,
            p.take(k),
            dir_table(b).len() + 1,
        ) {
            Err(e) => Err(e),
            Ok((child, _)) => open_from(b, child, p.skip(k + 1)),
        }
    }
}

/// What [`RomFs::open`] finds for path bytes `path`.
pub open spec fn open_spec(b: Seq<u8>, path: Seq<u8>) -> Result<(RomFsFileEntry, Seq<u8>), OpenError> {
    let p = trim_slashes(path);
    if p.len() == 0 {
        Err(OpenError::PathNotFound)
    } else {
        match dir_lookup(dir_table(b), dir_table_base(b), 0) {
            Err((required, available)) => Err(OpenError::BufferTooSmall { required, available }),
            Ok((root, _)) => open_from(b, root, p),
        }
    }
}

proof fn lemma_first_slash(p: Seq<u8>)
    ensures
        0 <= first_slash(p) <= p.len(),
        first_slash(p) < p.len() ==> p[first_slash(p)] == 0x2F,
        forall|i: int| 0 <= i < first_slash(p) ==> p[i] != 0x2F,
    decreases p.len(),
{
    if p.len() > 0 && p[0] != 0x2F {
        lemma_first_slash(p.drop_first());
        assert forall|i: int| 0 <= i < first_slash(p) implies p[i] != 0x2F by {
            if i > 0 {
                assert(p[i] == p.drop_first()[i - 1]);
            }
        }
    }
}

proof fn lemma_open_from_last(b: Seq<u8>, dir: RomFsDirEntry, p: Seq<u8>)
    requires
        forall|i: int| 0 <= i < p.len() ==> p[i] != 0x2F,
    ensures
        open_from(b, dir, p) == find_file_walk(
            file_table(b),
            file_table_base(b),
            dir.file_offset,
            p,
            file_table(b).len() + 1,
        ),
{
    lemma_first_slash(p);
}

proof fn lemma_open_from_step(b: Seq<u8>, dir: RomFsDirEntry, p: Seq<u8>, k: int)
    requires
        0 <= k < p.len(),
        p[k] == 0x2F,
        forall|i: int| 0 <= i < k ==> p[i] != 0x2F,
    ensures
        open_from(b, dir, p) == match find_dir_walk(
            dir_table(b),
            dir_table_base(b),
            dir.child_offset,
            p.take(k),
            dir_table(b).len() + 1,
        ) {
            Err(e) => Err(e),
            Ok((child, _)) => open_from(b, child, p.skip(k + 1)),
        },
{
    lemma_first_slash(p);
}

/// The index of the first `/` at or after `from`, or the length.
fn find_slash(p: &[u8], from: usize) -> (r: usize)
    requires
        from <= p@.len(),
    ensures
        from <= r <= p@.len(),
        r < p@.len() ==> p@[r as int] == 0x2F,
        forall|i: int| from <= i < r ==> p@[i] != 0x2F,
{
    let mut i = from;
    while i < p.len() && p[i] != 0x2F
        invariant
            from <= i <= p@.len(),
            forall|j: int| from <= j < i ==> p@[j] != 0x2F,
        decreases p.len() - i,
    {
        i = i + 1;
    }
    i
}

impl<'a> RomFsDir<'a> {
    /// The directory at offset `offset` of the directory table, or the
    /// `(required, available)` sizes when it does not fit.
    fn from_offset(romfs: &'a RomFs<'a>, offset: u32) -> (r: Result<RomFsDir<'a>, (usize, usize)>)
        ensures
            match dir_lookup(dir_table(romfs@), dir_table_base(romfs@), offset as int) {
                Err(x) => r == Err::<RomFsDir<'a>, (usize, usize)>(x),
                Ok((e, nb)) => r matches Ok(d) && d@ == (RomFsDirView {
                    image: romfs@,
                    entry: e,
                    name: stored_name(nb),
                }),
            },
    {
        proof {
            use_type_invariant(romfs);
        }
        let offset = offset as usize;
        let table = romfs.dir_meta_table();
        let table_base = romfs.header.dir_meta_table_offset as usize;
        let available = table_base + table.len();
        if offset >= table.len() || table.len() - offset < ROMFS_DIR_ENTRY_SIZE {
            return Err((offset.saturating_add(ROMFS_DIR_ENTRY_SIZE), available));
        }
        let entry = read_dir_entry(table, offset);
        let name_len = entry.name_len as usize;
        let name_offset = offset + ROMFS_DIR_ENTRY_SIZE;
        let name_end = match name_offset.checked_add(name_len) {
            Some(e) => e,
            None => {
                return Err((usize::MAX, available));
            },
        };
        if name_end > table.len() {
            return Err((table_base.saturating_add(name_end), available));
        }
        let name = read_name(vstd::slice::slice_subrange(table, name_offset, name_end));
        Ok(RomFsDir { romfs, entry, name })
    }

    /// The directory's name (empty when it is not valid UTF-8).
    pub fn name(&self) -> (r: &str)
        ensures
            r.spec_bytes() == self@.name,
    {
        self.name
    }

    /// The first subdirectory named `name`, following the child chain.
    fn find_dir(&self, name: &[u8]) -> (r: Result<RomFsDir<'a>, OpenError>)
        ensures
            match find_dir_walk(
                dir_table(self@.image),
                dir_table_base(self@.image),
                self@.entry.child_offset,
                name@,
                dir_table(self@.image).len() + 1,
            ) {
                Err(e) => r == Err::<RomFsDir<'a>, OpenError>(e),
                Ok((e, nb)) => r matches Ok(d) && d@ == (RomFsDirView {
                    image: self@.image,
                    entry: e,
                    name: stored_name(nb),
                }),
            },
    {
        let ghost t = dir_table(self@.image);
        let ghost base = dir_table_base(self@.image);
        proof {
            use_type_invariant(self.romfs);
        }
        let table_len = self.romfs.dir_meta_table().len();
        let mut child_offset = self.entry.child_offset;
        let mut steps: usize = 0;
        while child_offset != u32::MAX
            invariant
                table_len == t.len(),
                steps <= table_len,
                self.romfs@ == self@.image,
                t == dir_table(self@.image),
                base == dir_table_base(self@.image),
                find_dir_walk(t, base, self@.entry.child_offset, name@, t.len() + 1) == find_dir_walk(
                    t,
                    base,
                    child_offset,
                    name@,
                    (table_len + 1 - steps) as nat,
                ),
            decreases table_len - steps,
        {
            let ghost fuel: int = table_len + 1 - steps;
            assert(find_dir_walk(t, base, child_offset, name@, fuel as nat) == match dir_lookup(t, base, child_offset as int) {
                Err((required, available)) => Err(OpenError::BufferTooSmall { required, available }),
                Ok((e, nb)) => if stored_name(nb) == name@ {
                    Ok((e, nb))
                } else {
                    find_dir_walk(t, base, e.sibling_offset, name@, (fuel - 1) as nat)
                },
            });
            let child = match RomFsDir::from_offset(self.romfs, child_offset) {
                Ok(d) => d,
                Err((required, available)) => {
                    return Err(OpenError::BufferTooSmall { required, available });
                },
            };
            if bytes_eq(child.name.as_bytes(), name) {
                return Ok(child);
            }
            child_offset = child.entry.sibling_offset;
            if steps == table_len {
                return Err(OpenError::DirNotFound);
            }
            steps = steps + 1;
        }
        Err(OpenError::DirNotFound)
    }

    /// The first file named `name`, following the file chain.
    fn find_file(&self, name: &[u8]) -> (r: Result<RomFsFile<'a>, OpenError>)
        ensures
            match find_file_walk(
                file_table(self@.image),
                file_table_base(self@.image),
                self@.entry.file_offset,
                name@,
                file_table(self@.image).len() + 1,
            ) {
                Err(e) => r == Err::<RomFsFile<'a>, OpenError>(e),
                Ok((e, nb)) => r matches Ok(f) && f@ == (RomFsFileView {
                    image: self@.image,
                    entry: e,
                    name: stored_name(nb),
                }),
            },
    {
        let ghost t = file_table(self@.image);
        let ghost base = file_table_base(self@.image);
        proof {
            use_type_invariant(self.romfs);
        }
        let table_len = self.romfs.file_meta_table().len();
        let mut file_offset = self.entry.file_offset;
        let mut steps: usize = 0;
        while file_offset != u32::MAX
            invariant
                table_len == t.len(),
                steps <= table_len,
                self.romfs@ == self@.image,
                t == file_table(self@.image),
                base == file_table_base(self@.image),
                find_file_walk(t, base, self@.entry.file_offset, name@, t.len() + 1) == find_file_walk(
                    t,
                    base,
                    file_offset,
                    name@,
                    (table_len + 1 - steps) as nat,
                ),
            decreases table_len - steps,
        {
            let ghost fuel: int = table_len + 1 - steps;
            assert(find_file_walk(t, base, file_offset, name@, fuel as nat) == match file_lookup(t, base, file_offset as int) {
                Err((required, available)) => Err(OpenError::BufferTooSmall { required, available }),
                Ok((e, nb)) => if stored_name(nb) == name@ {
                    Ok((e, nb))
                } else {
                    find_file_walk(t, base, e.sibling_offset, name@, (fuel - 1) as nat)
                },
            });
            let file = match RomFsFile::from_offset(self.romfs, file_offset) {
                Ok(f) => f,
                Err((required, available)) => {
                    return Err(OpenError::BufferTooSmall { required, available });
                },
            };
            if bytes_eq(file.name.as_bytes(), name) {
                return Ok(file);
            }
            file_offset = file.entry.sibling_offset;
            if steps == table_len {
                return Err(OpenError::FileNotFound);
            }
            steps = steps + 1;
        }
        Err(OpenError::FileNotFound)
    }

    /// A walk over the directory's entries: its subdirectories, then its
    /// files.
    pub fn entries(&self) -> (r: DirIterator<'a>)
        ensures
            r@ == (DirIteratorView {
                image: self@.image,
                next_dir_offset: self@.entry.child_offset,
                next_file_offset: self@.entry.file_offset,
            }),
    {
        DirIterator {
            romfs: self.romfs,
            next_dir_offset: self.entry.child_offset,
            next_file_offset: self.entry.file_offset,
        }
    }
}

impl<'a> RomFsFile<'a> {
    /// The file at offset `offset` of the file table, or the `(required,
    /// available)` sizes when it does not fit.
    fn from_offset(romfs: &'a RomFs<'a>, offset: u32) -> (r: Result<RomFsFile<'a>, (usize, usize)>)
        ensures
            match file_lookup(file_table(romfs@), file_table_base(romfs@), offset as int) {
                Err(x) => r == Err::<RomFsFile<'a>, (usize, usize)>(x),
                Ok((e, nb)) => r matches Ok(f) && f@ == (RomFsFileView {
                    image: romfs@,
                    entry: e,
                    name: stored_name(nb),
                }),
            },
    {
        proof {
            use_type_invariant(romfs);
        }
        let offset = offset as usize;
        let table = romfs.file_meta_table();
        let table_base = romfs.header.file_meta_table_offset as usize;
        let available = table_base + table.len();
        if offset >= table.len() || table.len() - offset < ROMFS_FILE_ENTRY_SIZE {
            return Err((offset.saturating_add(ROMFS_FILE_ENTRY_SIZE), available));
        }
        let entry = read_file_entry(table, offset);
        let name_len = entry.name_len as usize;
        let name_offset = offset + ROMFS_FILE_ENTRY_SIZE;
        let name_end = match name_offset.checked_add(name_len) {
            Some(e) => e,
            None => {
                return Err((usize::MAX, available));
            },
        };
        if name_end > table.len() {
            return Err((table_base.saturating_add(name_end), available));
        }
        let name = read_name(vstd::slice::slice_subrange(table, name_offset, name_end));
        Ok(RomFsFile { romfs, entry, name })
    }

    /// The file's name (empty when it is not valid UTF-8).
    pub fn name(&self) -> (r: &str)
        ensures
            r.spec_bytes() == self@.name,
    {
        self.name
    }

    /// The file's size in bytes.
    pub fn size(&self) -> (r: usize)
        ensures
            r == self@.entry.data_size as usize,
    {
        self.entry.data_size as usize
    }

    /// The file's contents; fails when its data does not lie within the
    /// image (data offsets are only checked here, when read).
    pub fn data(&self) -> (r: Result<&'a [u8], FromBytesError>)
        ensures
            match file_data_spec(self@.image, self@.entry) {
                Ok(d) => r matches Ok(s) && s@ == d,
                Err(e) => r == Err::<&'a [u8], FromBytesError>(e),
            },
    {
        proof {
            use_type_invariant(self.romfs);
        }
        let offset = self.entry.data_offset as usize;
        let size = self.entry.data_size as usize;
        let data_base = self.romfs.header.file_data_offset as usize;
        let abs_start = match data_base.checked_add(offset) {
            Some(s) => s,
            None => {
                return Err(
                    FromBytesError::FileDataBoundsOverflow {
                        file_data_offset: data_base,
                        data_offset: offset,
                        data_size: size,
                    },
                );
            },
        };
        let abs_end = match abs_start.checked_add(size) {
            Some(e) => e,
            None => {
                return Err(
                    FromBytesError::FileDataBoundsOverflow {
                        file_data_offset: data_base,
                        data_offset: offset,
                        data_size: size,
                    },
                );
            },
        };
        if abs_end > self.romfs.bytes.len() {
            return Err(
                FromBytesError::FileDataOutOfBounds {
                    data_offset: offset,
                    data_size: size,
                    available: self.romfs.bytes.len(),
                },
            );
        }
        Ok(self.romfs.file_data(offset, size))
    }
}

/// A file's contents, or why they cannot be read.
pub open spec fn file_data_spec(b: Seq<u8>, e: RomFsFileEntry) -> Result<Seq<u8>, FromBytesError> {
    let offset = e.data_offset as usize;
    let size = e.data_size as usize;
    let base = romfs_header_at(b).file_data_offset as usize;
    if base + offset > usize::MAX || base + offset + size > usize::MAX {
        Err(
            FromBytesError::FileDataBoundsOverflow {
                file_data_offset: base,
                data_offset: offset,
                data_size: size,
            },
        )
    } else if base + offset + size > b.len() {
        Err(
            FromBytesError::FileDataOutOfBounds {
                data_offset: offset,
                data_size: size,
                available: b.len() as usize,
            },
        )
    } else {
        Ok(b.subrange(base + offset, base + offset + size))
    }
}

impl<'a> RomFs<'a> {
    /// `size` bytes at `offset` of the file data region.
    fn file_data(&self, offset: usize, size: usize) -> (r: &'a [u8])
        requires
            romfs_header_at(self@).file_data_offset as usize + offset + size <= self@.len(),
        ensures
            r@ == self@.subrange(
                romfs_header_at(self@).file_data_offset as usize + offset,
                romfs_header_at(self@).file_data_offset as usize + offset + size,
            ),
    {
        proof {
            use_type_invariant(self);
        }
        let data_offset = self.header.file_data_offset as usize;
        vstd::slice::slice_subrange(self.bytes, data_offset + offset, data_offset + offset + size)
    }
}

/// What [`DirIterator::next`] yields from a walk standing at `v`: the next
/// subdirectory while there is one that can be read, then the next file.
pub open spec fn dir_iter_step(v: DirIteratorView) -> Option<RomFsEntryView> {
    let b = v.image;
    if v.next_dir_offset != u32::MAX && dir_lookup(
        dir_table(b),
        dir_table_base(b),
        v.next_dir_offset as int,
    ) is Ok {
        let (e, nb) = dir_lookup(dir_table(b), dir_table_base(b), v.next_dir_offset as int)->Ok_0;
        Some(RomFsEntryView::Dir(RomFsDirView { image: b, entry: e, name: stored_name(nb) }))
    } else if v.next_file_offset != u32::MAX && file_lookup(
        file_table(b),
        file_table_base(b),
        v.next_file_offset as int,
    ) is Ok {
        let (e, nb) = file_lookup(file_table(b), file_table_base(b), v.next_file_offset as int)->Ok_0;
        Some(RomFsEntryView::File(RomFsFileView { image: b, entry: e, name: stored_name(nb) }))
    } else {
        None
    }
}

/// A directory entry as the specifications see it.
pub enum RomFsEntryView {
    /// A file
    File(RomFsFileView),
    /// A directory
    Dir(RomFsDirView),
}

/// The view of a directory entry.
pub open spec fn entry_view<'a>(e: RomFsEntry<'a>) -> RomFsEntryView {
    match e {
        RomFsEntry::File(f) => RomFsEntryView::File(f@),
        RomFsEntry::Dir(d) => RomFsEntryView::Dir(d@),
    }
}

impl<'a> DirIterator<'a> {
    /// The next entry: a subdirectory while the subdirectory chain lasts,
    /// then a file while the file chain lasts; `None` at the end (or where
    /// an entry cannot be read). Each step moves along the chain it took
    /// the entry from.
    pub fn next(&mut self) -> (r: Option<RomFsEntry<'a>>)
        ensures
            final(self)@.image == old(self)@.image,
            match dir_iter_step(old(self)@) {
                None => r is None && final(self)@ == old(self)@,
                Some(RomFsEntryView::Dir(d)) => r matches Some(e) && entry_view(e)
                    == RomFsEntryView::Dir(d) && final(self)@ == (DirIteratorView {
                    next_dir_offset: d.entry.sibling_offset,
                    ..old(self)@
                }),
                Some(RomFsEntryView::File(f)) => r matches Some(e) && entry_view(e)
                    == RomFsEntryView::File(f) && final(self)@ == (DirIteratorView {
                    next_file_offset: f.entry.sibling_offset,
                    ..old(self)@
                }),
            },
    {
        if self.next_dir_offset != u32::MAX {
            if let Ok(dir) = RomFsDir::from_offset(self.romfs, self.next_dir_offset) {
                self.next_dir_offset = dir.entry.sibling_offset;
                return Some(RomFsEntry::Dir(dir));
            }
        }
        if self.next_file_offset != u32::MAX {
            if let Ok(file) = RomFsFile::from_offset(self.romfs, self.next_file_offset) {
                self.next_file_offset = file.entry.sibling_offset;
                return Some(RomFsEntry::File(file));
            }
        }
        None
    }
}

} // verus!
