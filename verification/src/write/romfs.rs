//! RomFS (read-only filesystem) builder.
//!
//! The builder holds a directory tree: directory 0 is the root, every
//! directory lists its subdirectories and files by index. Building lays out
//! the 0x50-byte header, the file data from offset 0x200 (each file aligned
//! to 16), then the directory hash table, directory metadata table, file hash
//! table and file metadata table.

use vstd::prelude::*;

use crate::bytes::{
    le32, le64, lemma_le64_read, lemma_ranges_kept, lemma_u64_appended, lemma_word_appended, lemma_words_kept, lemma_words_within,
    push_all, push_u32, push_u64, push_zeros, round_up, u32_of, u64_of, zeros,
};
use crate::raw::romfs::{dir_entry_at, file_entry_at, lemma_romfs_header_at_words, romfs_header_at};
use crate::read::romfs::{romfs_error, OpenError};
use crate::read::romfs::first_slash;
use crate::write::kip::le32_all;
use crate::write::pfs0::{bytes_lt, lex_lt};

verus! {

/// Offset of the file data region.
pub const ROMFS_FILEPARTITION_OFS: u64 = 0x200;

/// Marker of an absent entry in offsets and hash chains.
pub const ROMFS_ENTRY_EMPTY: u32 = 0xFFFF_FFFF;

/// Seed of the path hash.
pub const PATH_HASH_SEED: u32 = 123_456_789;

/// A directory of the tree.
struct DirEntry {
    name: Vec<u8>,
    children: Vec<usize>,
    files: Vec<usize>,
    parent: usize,
}

/// A file of the tree.
struct FileEntry {
    name: Vec<u8>,
    data: Vec<u8>,
    parent: usize,
}

/// A directory as the specifications see it: its name's bytes, its parent,
/// and its subdirectories and files by index, in the order added.
pub struct RomFsDirNode {
    pub name: Seq<u8>,
    pub parent: usize,
    pub children: Seq<usize>,
    pub files: Seq<usize>,
}

/// A file as the specifications see it.
pub struct RomFsFileNode {
    pub name: Seq<u8>,
    pub data: Seq<u8>,
    pub parent: usize,
}

/// What a [`RomFsBuilder`] holds: the directories (0 is the root) and the
/// files, in the order they were created.
pub struct RomFsBuilderView {
    pub dirs: Seq<RomFsDirNode>,
    pub files: Seq<RomFsFileNode>,
}

spec fn dir_node(d: DirEntry) -> RomFsDirNode {
    RomFsDirNode { name: d.name@, parent: d.parent, children: d.children@, files: d.files@ }
}

spec fn file_node(f: FileEntry) -> RomFsFileNode {
    RomFsFileNode { name: f.name@, data: f.data@, parent: f.parent }
}

spec fn dirs_view(ds: Seq<DirEntry>) -> Seq<RomFsDirNode> {
    ds.map_values(|d: DirEntry| dir_node(d))
}

spec fn files_view(fs: Seq<FileEntry>) -> Seq<RomFsFileNode> {
    fs.map_values(|f: FileEntry| file_node(f))
}

/// Builder for RomFS images.
pub struct RomFsBuilder {
    dirs: Vec<DirEntry>,
    files: Vec<FileEntry>,
}

impl View for RomFsBuilder {
    type V = RomFsBuilderView;

    closed spec fn view(&self) -> RomFsBuilderView {
        RomFsBuilderView { dirs: dirs_view(self.dirs@), files: files_view(self.files@) }
    }
}

/// Whether every index of the tree is in range: there is a root, and every
/// parent, subdirectory and file index names an existing entry.
pub open spec fn tree_ok(v: RomFsBuilderView) -> bool {
    &&& v.dirs.len() >= 1
    &&& forall|d: int|
        0 <= d < v.dirs.len() ==> {
            &&& (#[trigger] v.dirs[d]).parent < v.dirs.len()
            &&& forall|k: int| 0 <= k < v.dirs[d].children.len() ==> v.dirs[d].children[k] < v.dirs.len()
            &&& forall|k: int| 0 <= k < v.dirs[d].files.len() ==> v.dirs[d].files[k] < v.files.len()
        }
    &&& forall|f: int| 0 <= f < v.files.len() ==> (#[trigger] v.files[f]).parent < v.dirs.len()
}

impl RomFsBuilder {
    /// Every index of the tree is in range.
    #[verifier::type_invariant]
    spec fn indices_ok(self) -> bool {
        tree_ok(self@)
    }
}

/// A builder holding only the root directory.
pub open spec fn romfs_builder_empty() -> RomFsBuilderView {
    RomFsBuilderView {
        dirs: seq![RomFsDirNode { name: Seq::empty(), parent: 0, children: Seq::empty(), files: Seq::empty() }],
        files: Seq::empty(),
    }
}

/// Errors of [`RomFsBuilder::add_file`] and [`RomFsBuilder::build`].
#[derive(Debug)]
pub enum BuildError {
    /// `build` was called without any file added.
    Empty,
    /// The path is not absolute or names no file.
    InvalidPath {
        /// The path
        path: String,
    },
    /// A file of that path was already added.
    DuplicateEntry {
        /// The path
        path: String,
    },
}

/// The non-empty `/`-separated components of `p`.
pub open spec fn components(p: Seq<u8>) -> Seq<Seq<u8>>
    decreases p.len(),
{
    let k = first_slash(p);
    if k >= p.len() || k < 0 {
        if p.len() > 0 {
            seq![p]
        } else {
            Seq::empty()
        }
    } else {
        (if k > 0 {
            seq![p.take(k)]
        } else {
            Seq::empty()
        }) + components(p.skip(k + 1))
    }
}

/// The first subdirectory of directory `d` named `name`, in the order they
/// were added.
pub open spec fn find_child(v: RomFsBuilderView, ch: Seq<usize>, name: Seq<u8>) -> Option<usize>
    decreases ch.len(),
{
    if ch.len() == 0 {
        None
    } else if v.dirs[ch[0] as int].name == name {
        Some(ch[0])
    } else {
        find_child(v, ch.drop_first(), name)
    }
}

/// `v` with a new directory `name` under `d`.
pub open spec fn with_new_dir(v: RomFsBuilderView, d: usize, name: Seq<u8>) -> RomFsBuilderView {
    let n = v.dirs.len() as usize;
    let pd = v.dirs[d as int];
    RomFsBuilderView {
        dirs: v.dirs.push(RomFsDirNode { name, parent: d, children: Seq::empty(), files: Seq::empty() }).update(
            d as int,
            RomFsDirNode { children: pd.children.push(n), ..pd },
        ),
        ..v
    }
}

/// Walking the directory names `comps` down from `d`, creating the
/// directories that do not exist: the resulting tree and directory.
pub open spec fn navigate(v: RomFsBuilderView, d: usize, comps: Seq<Seq<u8>>) -> (RomFsBuilderView, usize)
    decreases comps.len(),
{
    if comps.len() == 0 {
        (v, d)
    } else {
        match find_child(v, v.dirs[d as int].children, comps[0]) {
            Some(c) => navigate(v, c, comps.drop_first()),
            None => navigate(with_new_dir(v, d, comps[0]), v.dirs.len() as usize, comps.drop_first()),
        }
    }
}

/// Whether directory `d` already holds a file named `name`.
pub open spec fn has_file(v: RomFsBuilderView, d: usize, name: Seq<u8>) -> bool {
    exists|k: int|
        0 <= k < v.dirs[d as int].files.len() && v.files[#[trigger] v.dirs[d as int].files[k] as int].name
            == name
}

/// Whether the `/`-separated path `q` has an empty component: it is empty,
/// or a `/` starts it, ends it or follows another `/`.
pub open spec fn empty_component(q: Seq<u8>) -> bool {
    q.len() == 0 || exists|i: int|
        0 <= i < q.len() && #[trigger] q[i] == 0x2F && (i == 0 || i + 1 == q.len() || q[i + 1] == 0x2F)
}

/// Whether walking the directory names `comps` down from `d`, creating the
/// directories that do not exist as [`navigate`] does, meets a file where a
/// directory is wanted.
pub open spec fn nav_file_conflict(v: RomFsBuilderView, d: usize, comps: Seq<Seq<u8>>) -> bool
    decreases comps.len(),
{
    if comps.len() == 0 {
        false
    } else if has_file(v, d, comps[0]) {
        true
    } else {
        match find_child(v, v.dirs[d as int].children, comps[0]) {
            Some(c) => nav_file_conflict(v, c, comps.drop_first()),
            None => nav_file_conflict(with_new_dir(v, d, comps[0]), v.dirs.len() as usize, comps.drop_first()),
        }
    }
}

/// What [`RomFsBuilder::add_file`] makes of a builder holding `v` for the
/// path bytes `p`: `Err(0)` for an invalid path (not starting with `/`, or
/// with an empty component), `Err(1)` when an entry already resolves to the
/// path (a file or a directory there, or a file at one of its parent paths),
/// else the new tree.
pub open spec fn add_file_spec(v: RomFsBuilderView, p: Seq<u8>, data: Seq<u8>) -> Result<RomFsBuilderView, int> {
    if p.len() == 0 || p[0] != 0x2F || empty_component(p.skip(1)) || components(p.skip(1)).len() == 0 {
        Err(0)
    } else {
        let comps = components(p.skip(1));
        if nav_file_conflict(v, 0, comps.drop_last()) {
            Err(1)
        } else {
            let (w, d) = navigate(v, 0, comps.drop_last());
            if has_file(w, d, comps.last()) || find_child(w, w.dirs[d as int].children, comps.last()) is Some {
                Err(1)
            } else {
                let n = w.files.len() as usize;
                let pd = w.dirs[d as int];
                Ok(
                    RomFsBuilderView {
                        dirs: w.dirs.update(d as int, RomFsDirNode { files: pd.files.push(n), ..pd }),
                        files: w.files.push(RomFsFileNode { name: comps.last(), data, parent: d }),
                    },
                )
            }
        }
    }
}

/// Whether `m` has none of 2, 3, 5, 7, 11, 13 and 17 as a factor.
pub open spec fn rough(m: int) -> bool {
    m % 2 != 0 && m % 3 != 0 && m % 5 != 0 && m % 7 != 0 && m % 11 != 0 && m % 13 != 0 && m % 17
        != 0
}

/// Product of the primes up to 17.
pub open spec fn primorial_17() -> int {
    510510
}

/// How far `m` is from the next number one above a multiple of
/// [`primorial_17`], which is rough.
pub open spec fn rough_gap(m: int) -> int {
    (primorial_17() + 1 - m % primorial_17()) % primorial_17()
}

/// A number one above a multiple of the product of the primes up to 17 has
/// none of them as a factor.
pub proof fn lemma_rough_above_multiple(m: int)
    requires
        m >= 0,
        m % 510510 == 1,
    ensures
        rough(m),
{
    vstd::arithmetic::div_mod::lemma_mod_mod(m, 2, 255255);
    vstd::arithmetic::div_mod::lemma_mod_mod(m, 3, 170170);
    vstd::arithmetic::div_mod::lemma_mod_mod(m, 5, 102102);
    vstd::arithmetic::div_mod::lemma_mod_mod(m, 7, 72930);
    vstd::arithmetic::div_mod::lemma_mod_mod(m, 11, 46410);
    vstd::arithmetic::div_mod::lemma_mod_mod(m, 13, 39270);
    vstd::arithmetic::div_mod::lemma_mod_mod(m, 17, 30030);
}

/// The least rough number at least `m`.
pub open spec fn next_rough(m: int) -> int
    decreases rough_gap(m),
{
    if m < 0 || rough(m) {
        m
    } else {
        proof {
            if m % 510510 == 1 {
                lemma_rough_above_multiple(m);
            }
        }
        next_rough(m + 1)
    }
}

/// The hash table size for `n` entries: 3 for fewer than 3, `n | 1` below
/// 19, else the least number from `n` up with no prime factor up to 17.
pub open spec fn hash_table_count(n: usize) -> usize {
    if n < 3 {
        3
    } else if n < 19 {
        n | 1
    } else {
        next_rough(n as int) as usize
    }
}

/// The path hash step: rotate right by 5.
pub open spec fn rotr5(h: u32) -> u32 {
    (h >> 5u32) | (h << 27u32)
}

/// Hash of a name under the parent entry at `parent`: the parent's offset
/// mixed with a seed, then each byte folded in after rotating right by 5.
pub open spec fn path_hash(parent: u32, name: Seq<u8>) -> u32
    decreases name.len(),
{
    if name.len() == 0 {
        parent ^ PATH_HASH_SEED
    } else {
        rotr5(path_hash(parent, name.drop_last())) ^ (name.last() as u32)
    }
}

/// Rotating a word right by five bits: its low five bits move to the top.
proof fn lemma_rotr5_value(h: u32)
    by (bit_vector)
    ensures
        ((h >> 5u32) | (h << 27u32)) == h / 32 + (h % 32) * 0x800_0000,
{
}

/// The RomFS path hash: an empty name hashes to the parent's offset xor
/// 123456789, and each further byte is xor-ed in after the hash so far is
/// rotated right by five bits (its low five bits moving to the top).
pub proof fn lemma_path_hash_steps(parent: u32, name: Seq<u8>, c: u8)
    ensures
        path_hash(parent, Seq::empty()) == parent ^ 123456789u32,
        ({
            let h = path_hash(parent, name);
            &&& path_hash(parent, name.push(c)) == ((h >> 5u32) | (h << 27u32)) ^ (c as u32)
            &&& path_hash(parent, name.push(c)) == ((h / 32 + (h % 32) * 0x800_0000) as u32) ^ (c as u32)
        }),
{
    let h = path_hash(parent, name);
    assert(name.push(c).drop_last() =~= name);
    lemma_rotr5_value(h);
}

/// Where an index goes in a sequence sorted by `key`: after every index
/// whose key sorts no later.
pub open spec fn key_insert_pos(s: Seq<usize>, k: Seq<u8>, key: spec_fn(usize) -> Seq<u8>) -> int
    decreases s.len(),
{
    if s.len() == 0 || bytes_lt(k, key(s[0])) {
        0
    } else {
        1 + key_insert_pos(s.drop_first(), k, key)
    }
}

/// The indices sorted by `key`, equal keys in their original order.
#[verifier::opaque]
pub open spec fn sort_by_key(s: Seq<usize>, key: spec_fn(usize) -> Seq<u8>) -> Seq<usize>
    decreases s.len(),
{
    if s.len() == 0 {
        Seq::empty()
    } else {
        let t = sort_by_key(s.drop_last(), key);
        t.insert(key_insert_pos(t, key(s.last()), key), s.last())
    }
}

/// A directory index's name.
pub open spec fn dir_key(v: RomFsBuilderView) -> spec_fn(usize) -> Seq<u8> {
    |c: usize| v.dirs[c as int].name
}

/// A file index's name.
pub open spec fn file_key(v: RomFsBuilderView) -> spec_fn(usize) -> Seq<u8> {
    |f: usize| v.files[f as int].name
}

/// The subdirectories of `d` sorted by name.
pub open spec fn sorted_children(v: RomFsBuilderView, d: int) -> Seq<usize> {
    sort_by_key(v.dirs[d].children, dir_key(v))
}

/// The files of `d` sorted by name.
pub open spec fn sorted_files(v: RomFsBuilderView, d: int) -> Seq<usize> {
    sort_by_key(v.dirs[d].files, file_key(v))
}

/// Offset of directory entry `k` in the directory table: the sizes of the
/// entries before it (0x18 bytes and the name padded to 4 each).
pub open spec fn dir_off(v: RomFsBuilderView, k: int) -> int
    decreases k,
{
    if k <= 0 {
        0
    } else {
        dir_off(v, k - 1) + 0x18 + round_up(v.dirs[k - 1].name.len() as int, 4)
    }
}

/// Offset of file entry `k` in the file table (0x20 bytes and the name
/// padded to 4 each).
pub open spec fn file_off(v: RomFsBuilderView, k: int) -> int
    decreases k,
{
    if k <= 0 {
        0
    } else {
        file_off(v, k - 1) + 0x20 + round_up(v.files[k - 1].name.len() as int, 4)
    }
}

/// The directory entry offsets.
pub open spec fn dir_offs(v: RomFsBuilderView) -> Seq<u32> {
    Seq::new(v.dirs.len(), |k: int| dir_off(v, k) as u32)
}

/// The file entry offsets.
pub open spec fn file_offs(v: RomFsBuilderView) -> Seq<u32> {
    Seq::new(v.files.len(), |k: int| file_off(v, k) as u32)
}

/// Where the data of the first `k` files ends in the file data region, each
/// file starting on a 16-byte boundary.
pub open spec fn data_end(v: RomFsBuilderView, k: int) -> int
    decreases k,
{
    if k <= 0 {
        0
    } else {
        round_up(data_end(v, k - 1), 16) + v.files[k - 1].data.len()
    }
}

/// The directory hash table and every directory's hash chain successor,
/// after hashing the first `k` directories: each goes to the head of its
/// bucket's chain.
#[verifier::opaque]
pub open spec fn dir_hash_fold(v: RomFsBuilderView, k: int) -> (Seq<u32>, Seq<u32>)
    decreases k,
{
    if k <= 0 {
        (Seq::new(hash_table_count(v.dirs.len() as usize) as nat, |i: int| ROMFS_ENTRY_EMPTY), Seq::empty())
    } else {
        let (t, sib) = dir_hash_fold(v, k - 1);
        let d = v.dirs[k - 1];
        let b = path_hash(dir_offs(v)[d.parent as int], d.name) as int % (t.len() as int);
        (t.update(b, dir_offs(v)[k - 1]), sib.push(t[b]))
    }
}

/// The file hash table and every file's hash chain successor, after
/// hashing the first `k` files.
#[verifier::opaque]
pub open spec fn file_hash_fold(v: RomFsBuilderView, k: int) -> (Seq<u32>, Seq<u32>)
    decreases k,
{
    if k <= 0 {
        (Seq::new(hash_table_count(v.files.len() as usize) as nat, |i: int| ROMFS_ENTRY_EMPTY), Seq::empty())
    } else {
        let (t, sib) = file_hash_fold(v, k - 1);
        let f = v.files[k - 1];
        let b = path_hash(dir_offs(v)[f.parent as int], f.name) as int % (t.len() as int);
        (t.update(b, file_offs(v)[k - 1]), sib.push(t[b]))
    }
}

/// The offset of the entry after the one at `target` in the list `ch` (by
/// offset), or the empty marker.
pub open spec fn next_sibling(ch: Seq<usize>, offs: Seq<u32>, target: u32) -> u32
    decreases ch.len(),
{
    if ch.len() < 2 {
        ROMFS_ENTRY_EMPTY
    } else if offs[ch[0] as int] == target {
        offs[ch[1] as int]
    } else {
        next_sibling(ch.drop_first(), offs, target)
    }
}

/// The offset of the first entry of `ch`, or the empty marker.
pub open spec fn first_offset(ch: Seq<usize>, offs: Seq<u32>) -> u32 {
    if ch.len() == 0 {
        ROMFS_ENTRY_EMPTY
    } else {
        offs[ch[0] as int]
    }
}

/// Zeros padding `n` bytes to a multiple of 4.
pub open spec fn pad4(n: int) -> Seq<u8> {
    zeros((round_up(n, 4) - n) as nat)
}

/// The metadata entry of directory `d`: parent, next sibling, first
/// subdirectory and first file (in name order), hash chain successor, name.
#[verifier::opaque]
pub open spec fn dir_entry_bytes(v: RomFsBuilderView, d: int) -> Seq<u8> {
    let dn = v.dirs[d];
    let offs = dir_offs(v);
    le32(offs[dn.parent as int]) + le32(
        next_sibling(sorted_children(v, dn.parent as int), offs, offs[d]),
    ) + le32(first_offset(sorted_children(v, d), offs)) + le32(
        first_offset(sorted_files(v, d), file_offs(v)),
    ) + le32(dir_hash_fold(v, v.dirs.len() as int).1[d]) + le32(dn.name.len() as u32) + dn.name
        + pad4(dn.name.len() as int)
}

/// The metadata entry of file `f`: parent, next sibling (in name order),
/// data offset and size, hash chain successor, name.
#[verifier::opaque]
pub open spec fn file_entry_bytes(v: RomFsBuilderView, f: int) -> Seq<u8> {
    let fnode = v.files[f];
    let doffs = dir_offs(v);
    let foffs = file_offs(v);
    le32(doffs[fnode.parent as int]) + le32(
        next_sibling(sorted_files(v, fnode.parent as int), foffs, foffs[f]),
    ) + le64(round_up(data_end(v, f), 16) as u64) + le64(fnode.data.len() as u64) + le32(
        file_hash_fold(v, v.files.len() as int).1[f],
    ) + le32(fnode.name.len() as u32) + fnode.name + pad4(fnode.name.len() as int)
}

/// The first `k` directory entries.
pub open spec fn dir_table(v: RomFsBuilderView, k: int) -> Seq<u8>
    decreases k,
{
    if k <= 0 {
        Seq::empty()
    } else {
        dir_table(v, k - 1) + dir_entry_bytes(v, k - 1)
    }
}

/// The first `k` file entries.
pub open spec fn file_table(v: RomFsBuilderView, k: int) -> Seq<u8>
    decreases k,
{
    if k <= 0 {
        Seq::empty()
    } else {
        file_table(v, k - 1) + file_entry_bytes(v, k - 1)
    }
}

/// The data of the first `k` files, each starting on a 16-byte boundary.
pub open spec fn file_region(v: RomFsBuilderView, k: int) -> Seq<u8>
    decreases k,
{
    if k <= 0 {
        Seq::empty()
    } else {
        file_region(v, k - 1) + zeros((round_up(data_end(v, k - 1), 16) - data_end(v, k - 1)) as nat)
            + v.files[k - 1].data
    }
}

/// A 0x200-byte RomFS header holding these offsets and sizes: the header
/// size, then offset and size of each table, then the file region's offset,
/// then zeros.
pub open spec fn romfs_header_words(
    dh: (u64, u64),
    dt: (u64, u64),
    fh: (u64, u64),
    ft: (u64, u64),
) -> Seq<u8> {
    le64(0x50) + le64(dh.0) + le64(dh.1) + le64(dt.0) + le64(dt.1) + le64(fh.0) + le64(fh.1)
        + le64(ft.0) + le64(ft.1) + le64(0x200) + zeros(0x1B0)
}

/// The 0x200-byte RomFS header for a file region of `part` bytes, hash
/// tables of `dh_n` and `fh_n` entries and metadata tables of `dt_n` and
/// `ft_n` bytes, laid out one after another on a 4-byte boundary after the
/// file region.
pub open spec fn romfs_header(part: int, dh_n: int, dt_n: int, fh_n: int, ft_n: int) -> Seq<u8> {
    let dh_off = round_up(0x200 + part, 4);
    let dt_off = dh_off + 4 * dh_n;
    let fh_off = dt_off + dt_n;
    let ft_off = fh_off + 4 * fh_n;
    romfs_header_words(
        (dh_off as u64, (4 * dh_n) as u64),
        (dt_off as u64, dt_n as u64),
        (fh_off as u64, (4 * fh_n) as u64),
        (ft_off as u64, ft_n as u64),
    )
}

/// The RomFS image of a builder holding `v`: the header, the file data,
/// zeros up to a multiple of 4, the directory hash table, the directory
/// table, the file hash table and the file table.
#[verifier::opaque]
pub open spec fn romfs_image(v: RomFsBuilderView) -> Seq<u8> {
    let nd = v.dirs.len() as int;
    let nf = v.files.len() as int;
    let part = data_end(v, nf);
    let dh = dir_hash_fold(v, nd).0;
    let fh = file_hash_fold(v, nf).0;
    let dt = dir_table(v, nd);
    let ft = file_table(v, nf);
    romfs_header(part, dh.len() as int, dt.len() as int, fh.len() as int, ft.len() as int)
        + file_region(v, nf) + zeros((round_up(0x200 + part, 4) - 0x200 - part) as nat)
        + le32_all(dh) + dt + le32_all(fh) + ft
}

/// Whether the entry offsets fit in 32 bits and the image in memory.
pub open spec fn romfs_fits(v: RomFsBuilderView) -> bool {
    &&& dir_off(v, v.dirs.len() as int) + 3 <= u32::MAX
    &&& file_off(v, v.files.len() as int) + 3 <= u32::MAX
    &&& v.dirs.len() + 0x8_0000 <= usize::MAX
    &&& v.files.len() + 0x8_0000 <= usize::MAX
    &&& romfs_image(v).len() <= usize::MAX
}

/// What [`RomFsBuilder::build`] produces for a builder holding `v`.
pub open spec fn romfs_build_spec(v: RomFsBuilderView) -> Option<Seq<u8>> {
    if v.files.len() == 0 {
        None
    } else {
        Some(romfs_image(v))
    }
}

proof fn lemma_first_slash_bounds(p: Seq<u8>)
    ensures
        0 <= first_slash(p) <= p.len(),
        first_slash(p) < p.len() ==> p[first_slash(p)] == 0x2F,
        forall|i: int| 0 <= i < first_slash(p) ==> p[i] != 0x2F,
    decreases p.len(),
{
    if p.len() > 0 && p[0] != 0x2F {
        lemma_first_slash_bounds(p.drop_first());
        assert forall|i: int| 0 <= i < first_slash(p) implies p[i] != 0x2F by {
            if i > 0 {
                assert(p[i] == p.drop_first()[i - 1]);
            }
        }
    }
}

/// The index of the first `/` at or after `from`, or the length.
fn next_slash(p: &[u8], from: usize) -> (r: usize)
    requires
        from <= p@.len(),
    ensures
        r == from + first_slash(p@.skip(from as int)),
        from <= r <= p@.len(),
{
    proof {
        lemma_first_slash_bounds(p@.skip(from as int));
    }
    let mut i = from;
    while i < p.len() && p[i] != 0x2F
        invariant
            from <= i <= p@.len(),
            forall|j: int| from <= j < i ==> p@[j] != 0x2F,
        decreases p.len() - i,
    {
        i = i + 1;
    }
    proof {
        lemma_first_slash_of(p@.skip(from as int), i - from);
    }
    i
}

/// `first_slash` is the index of the first `/`.
proof fn lemma_first_slash_of(p: Seq<u8>, k: int)
    requires
        0 <= k <= p.len(),
        k < p.len() ==> p[k] == 0x2F,
        forall|j: int| 0 <= j < k ==> p[j] != 0x2F,
    ensures
        first_slash(p) == k,
    decreases k,
{
    if k > 0 {
        assert forall|j: int| 0 <= j < k - 1 implies p.drop_first()[j] != 0x2F by {
            assert(p.drop_first()[j] == p[j + 1]);
        }
        if k < p.len() {
            assert(p.drop_first()[k - 1] == p[k]);
        }
        lemma_first_slash_of(p.drop_first(), k - 1);
    }
}

/// The non-empty components of `p` from `from` on.
fn split_components(p: &[u8], from: usize) -> (r: Vec<Vec<u8>>)
    requires
        from <= p@.len(),
    ensures
        r@.map_values(|c: Vec<u8>| c@) == components(p@.skip(from as int)),
    decreases p@.len() - from,
{
    let k = next_slash(p, from);
    let ghost s = p@.skip(from as int);
    if k >= p.len() {
        let mut r: Vec<Vec<u8>> = Vec::new();
        if from < p.len() {
            let mut c: Vec<u8> = Vec::new();
            push_all(&mut c, vstd::slice::slice_subrange(p, from, p.len()));
            r.push(c);
            assert(r@.map_values(|c: Vec<u8>| c@) =~= seq![s]);
        } else {
            assert(r@.map_values(|c: Vec<u8>| c@) =~= Seq::<Seq<u8>>::empty());
        }
        r
    } else {
        let rest = split_components(p, k + 1);
        assert(s.skip(k - from + 1) =~= p@.skip(k + 1));
        let mut r: Vec<Vec<u8>> = Vec::new();
        if k > from {
            let mut c: Vec<u8> = Vec::new();
            push_all(&mut c, vstd::slice::slice_subrange(p, from, k));
            assert(c@ =~= s.take(k - from));
            r.push(c);
        }
        let ghost head = r@.map_values(|c: Vec<u8>| c@);
        let mut rest = rest;
        let ghost rv = rest@.map_values(|c: Vec<u8>| c@);
        let mut j: usize = 0;
        let n = rest.len();
        while rest.len() > 0
            invariant
                j <= n,
                rest@.len() + j == n,
                rv.len() == n,
                rest@.map_values(|c: Vec<u8>| c@) == rv.skip(j as int),
                r@.map_values(|c: Vec<u8>| c@) == head + rv.take(j as int),
            decreases rest.len(),
        {
            assert(rest@.map_values(|c: Vec<u8>| c@)[0] == rv[j as int]);
            let ghost old_rest = rest@;
            let ghost old_r = r@.map_values(|c: Vec<u8>| c@);
            let c = rest.remove(0);
            assert(c@ == rv[j as int]);
            r.push(c);
            assert(r@.map_values(|c: Vec<u8>| c@) =~= old_r.push(rv[j as int]));
            assert(rest@.map_values(|c: Vec<u8>| c@) =~= old_rest.map_values(|c: Vec<u8>| c@).drop_first());
            assert(rv.skip(j as int).drop_first() =~= rv.skip(j + 1));
            j = j + 1;
            assert(r@.map_values(|c: Vec<u8>| c@) =~= head + rv.take(j as int));
        }
        assert(rv.take(n as int) =~= rv);
        r
    }
}

/// Adds subdirectory `c` to directory `d`.
fn push_child(dirs: &mut Vec<DirEntry>, d: usize, c: usize)
    requires
        d < old(dirs)@.len(),
    ensures
        dirs_view(final(dirs)@) == dirs_view(old(dirs)@).update(
            d as int,
            RomFsDirNode {
                children: dirs_view(old(dirs)@)[d as int].children.push(c),
                ..dirs_view(old(dirs)@)[d as int]
            },
        ),
{
    let ghost before = dirs_view(dirs@);
    let mut e = dirs.remove(d);
    e.children.push(c);
    dirs.insert(d, e);
    assert(dirs_view(dirs@) =~= before.update(
        d as int,
        RomFsDirNode { children: before[d as int].children.push(c), ..before[d as int] },
    ));
}

/// Adds file `f` to directory `d`.
fn push_file(dirs: &mut Vec<DirEntry>, d: usize, f: usize)
    requires
        d < old(dirs)@.len(),
    ensures
        dirs_view(final(dirs)@) == dirs_view(old(dirs)@).update(
            d as int,
            RomFsDirNode {
                files: dirs_view(old(dirs)@)[d as int].files.push(f),
                ..dirs_view(old(dirs)@)[d as int]
            },
        ),
{
    let ghost before = dirs_view(dirs@);
    let mut e = dirs.remove(d);
    e.files.push(f);
    dirs.insert(d, e);
    assert(dirs_view(dirs@) =~= before.update(
        d as int,
        RomFsDirNode { files: before[d as int].files.push(f), ..before[d as int] },
    ));
}

/// Whether two byte vectors are equal.
fn same_name(a: &Vec<u8>, b: &Vec<u8>) -> (r: bool)
    ensures
        r == (a@ == b@),
{
    crate::bytes::bytes_eq(a.as_slice(), b.as_slice())
}

/// Whether the path after its leading byte has an empty component.
fn empty_component_exec(p: &[u8]) -> (r: bool)
    requires
        p@.len() >= 1,
    ensures
        r == empty_component(p@.skip(1)),
{
    let ghost q = p@.skip(1);
    let len = p.len();
    if len == 1 {
        return true;
    }
    let mut i: usize = 1;
    while i < len
        invariant
            1 <= i <= len,
            len == p@.len(),
            q == p@.skip(1),
            forall|j: int|
                0 <= j < i - 1 ==> !(#[trigger] q[j] == 0x2F && (j == 0 || j + 1 == q.len() || q[j + 1] == 0x2F)),
        decreases len - i,
    {
        if p[i] == 0x2F && (i == 1 || i + 1 == len || p[i + 1] == 0x2F) {
            let ghost j = i - 1;
            assert(q[j] == 0x2F);
            return true;
        }
        proof {
            let j = i - 1;
            assert(q[j] == p@[i as int]);
            if j + 1 < q.len() {
                assert(q[j + 1] == p@[i + 1]);
            }
        }
        i = i + 1;
    }
    proof {
        if empty_component(q) {
            let j = choose|j: int|
                0 <= j < q.len() && #[trigger] q[j] == 0x2F && (j == 0 || j + 1 == q.len() || q[j + 1] == 0x2F);
            assert(j < i - 1);
        }
    }
    false
}

/// Whether directory `d` holds a file named `name`.
fn has_file_exec(dirs: &Vec<DirEntry>, files: &Vec<FileEntry>, d: usize, name: &Vec<u8>) -> (r: bool)
    requires
        tree_ok(RomFsBuilderView { dirs: dirs_view(dirs@), files: files_view(files@) }),
        d < dirs@.len(),
    ensures
        r == has_file(RomFsBuilderView { dirs: dirs_view(dirs@), files: files_view(files@) }, d, name@),
{
    let ghost w = RomFsBuilderView { dirs: dirs_view(dirs@), files: files_view(files@) };
    let fl = &dirs[d].files;
    assert(fl@ == w.dirs[d as int].files);
    let mut k: usize = 0;
    while k < fl.len()
        invariant
            k <= fl@.len(),
            fl@ == w.dirs[d as int].files,
            tree_ok(w),
            d < w.dirs.len(),
            w == (RomFsBuilderView { dirs: dirs_view(dirs@), files: files_view(files@) }),
            forall|j: int| 0 <= j < k ==> w.files[fl@[j] as int].name != name@,
        decreases fl.len() - k,
    {
        let f = fl[k];
        assert(f < w.files.len());
        if same_name(&files[f].name, name) {
            assert(w.files[w.dirs[d as int].files[k as int] as int].name == name@);
            return true;
        }
        k = k + 1;
    }
    false
}


/// The first subdirectory of `d` named `name`.
fn find_child_exec(dirs: &Vec<DirEntry>, files: &Vec<FileEntry>, d: usize, name: &Vec<u8>) -> (r: Option<usize>)
    requires
        tree_ok(RomFsBuilderView { dirs: dirs_view(dirs@), files: files_view(files@) }),
        d < dirs@.len(),
    ensures
        r == find_child(
            RomFsBuilderView { dirs: dirs_view(dirs@), files: files_view(files@) },
            dirs_view(dirs@)[d as int].children,
            name@,
        ),
{
    let ghost v = RomFsBuilderView { dirs: dirs_view(dirs@), files: files_view(files@) };
    let ghost ch = v.dirs[d as int].children;
    let children = &dirs[d].children;
    assert(children@ == ch);
    let mut k: usize = 0;
    assert(ch.skip(0) =~= ch);
    while k < children.len()
        invariant
            k <= ch.len(),
            children@ == ch,
            d < dirs@.len(),
            ch == v.dirs[d as int].children,
            tree_ok(v),
            v == (RomFsBuilderView { dirs: dirs_view(dirs@), files: files_view(files@) }),
            forall|j: int| 0 <= j < ch.len() ==> ch[j] < dirs@.len(),
            find_child(v, ch, name@) == find_child(v, ch.skip(k as int), name@),
        decreases ch.len() - k,
    {
        let c = children[k];
        assert(ch.skip(k as int)[0] == c);
        assert(ch.skip(k as int).drop_first() =~= ch.skip(k + 1));
        assert(v.dirs[c as int].name == dirs@[c as int].name@);
        if same_name(&dirs[c].name, name) {
            return Some(c);
        }
        k = k + 1;
    }
    None
}

/// The subdirectory found is one of those searched.
proof fn lemma_find_child_in(v: RomFsBuilderView, ch: Seq<usize>, name: Seq<u8>)
    ensures
        find_child(v, ch, name) matches Some(c) ==> exists|j: int| 0 <= j < ch.len() && ch[j] == c,
    decreases ch.len(),
{
    if ch.len() > 0 && v.dirs[ch[0] as int].name != name {
        lemma_find_child_in(v, ch.drop_first(), name);
        if find_child(v, ch, name) is Some {
            let c = find_child(v, ch, name)->Some_0;
            let t = ch.drop_first();
            let j = choose|j: int| 0 <= j < t.len() && t[j] == c;
            assert(ch[j + 1] == c);
        }
    }
}

/// A new tree keeps its indices in range.
proof fn lemma_with_new_dir_ok(v: RomFsBuilderView, d: usize, name: Seq<u8>)
    requires
        tree_ok(v),
        d < v.dirs.len(),
    ensures
        tree_ok(with_new_dir(v, d, name)),
{
    let w = with_new_dir(v, d, name);
    assert forall|e: int| 0 <= e < w.dirs.len() implies {
        &&& (#[trigger] w.dirs[e]).parent < w.dirs.len()
        &&& forall|k: int| 0 <= k < w.dirs[e].children.len() ==> w.dirs[e].children[k] < w.dirs.len()
        &&& forall|k: int| 0 <= k < w.dirs[e].files.len() ==> w.dirs[e].files[k] < w.files.len()
    } by {
        if e < v.dirs.len() {
            assert(v.dirs[e].parent < v.dirs.len());
        }
    }
}

/// The tree as the specifications see it.
spec fn view_of(dirs: Seq<DirEntry>, files: Seq<FileEntry>) -> RomFsBuilderView {
    RomFsBuilderView { dirs: dirs_view(dirs), files: files_view(files) }
}

proof fn lemma_rough_gap_step(m: int)
    requires
        m >= 0,
        !rough(m),
    ensures
        rough_gap(m + 1) == rough_gap(m) - 1,
        rough_gap(m) > 0,
{
    if m % 510510 == 1 {
        lemma_rough_above_multiple(m);
    }
}

/// The hash table size for `num_entries` entries.
fn romfs_get_hash_table_count(num_entries: usize) -> (r: usize)
    requires
        num_entries + 0x8_0000 <= usize::MAX,
    ensures
        r == hash_table_count(num_entries),
        r >= 3,
{
    if num_entries < 3 {
        3
    } else if num_entries < 19 {
        let r = num_entries | 1;
        assert(r >= num_entries) by (bit_vector)
            requires
                r == num_entries | 1,
        ;
        r
    } else {
        let mut n = num_entries;
        while n % 2 == 0 || n % 3 == 0 || n % 5 == 0 || n % 7 == 0 || n % 11 == 0 || n % 13 == 0 || n
            % 17 == 0
            invariant
                num_entries <= n,
                n + rough_gap(n as int) <= num_entries + rough_gap(num_entries as int),
                rough_gap(num_entries as int) < 510510,
                num_entries + 0x8_0000 <= usize::MAX,
                next_rough(num_entries as int) == next_rough(n as int),
            decreases rough_gap(n as int),
        {
            proof {
                lemma_rough_gap_step(n as int);
            }
            n = n + 1;
        }
        n
    }
}

/// The path hash of `name` under the entry at `parent_offset`.
fn calc_path_hash(parent_offset: u32, name: &[u8]) -> (r: u32)
    ensures
        r == path_hash(parent_offset, name@),
{
    let mut hash = parent_offset ^ PATH_HASH_SEED;
    let mut i: usize = 0;
    assert(name@.take(0) =~= Seq::<u8>::empty());
    while i < name.len()
        invariant
            i <= name@.len(),
            hash == path_hash(parent_offset, name@.take(i as int)),
        decreases name.len() - i,
    {
        assert(name@.take(i + 1).drop_last() =~= name@.take(i as int));
        hash = ((hash >> 5) | (hash << 27)) ^ (name[i] as u32);
        i = i + 1;
    }
    assert(name@.take(i as int) =~= name@);
    hash
}

/// `x` rounded up to a multiple of 4.
fn align32(x: u32) -> (r: u32)
    requires
        x + 3 <= u32::MAX,
    ensures
        r == round_up(x as int, 4),
{
    let y = x + 3;
    let r = y & !3u32;
    assert(r == y - y % 4) by (bit_vector)
        requires
            r == y & !3u32,
    ;
    r
}

/// `x` rounded up to a multiple of 4.
fn round_up_4_u128(x: u128) -> (r: u128)
    requires
        x <= 0x2_0000_0000_0000_0000,
    ensures
        r == round_up(x as int, 4),
        x <= r <= x + 3,
{
    if x % 4 == 0 {
        x
    } else {
        x - x % 4 + 4
    }
}

/// `x` rounded up to a multiple of 16.
fn round_up_16_u128(x: u128) -> (r: u128)
    requires
        x <= u64::MAX,
    ensures
        r == round_up(x as int, 16),
        x <= r <= x + 15,
{
    if x % 16 == 0 {
        x
    } else {
        x - x % 16 + 16
    }
}


/// `x` rounded up to a multiple of `16`.
fn align64_16(x: u64) -> (r: u64)
    requires
        x + 15 <= u64::MAX,
    ensures
        r == round_up(x as int, 16),
{
    let y = x + 15;
    let r = y & !15u64;
    assert(r == y - y % 16) by (bit_vector)
        requires
            r == y & !15u64,
    ;
    r
}

/// Where index `x` goes among `out` sorted by `key`.
fn key_pos(names: &Vec<Vec<u8>>, out: &Vec<usize>, x: usize, key: Ghost<spec_fn(usize) -> Seq<u8>>) -> (r: usize)
    requires
        x < names@.len(),
        forall|j: int| 0 <= j < out@.len() ==> out@[j] < names@.len(),
        forall|i: int| 0 <= i < names@.len() ==> (key@)(i as usize) == #[trigger] names@[i]@,
    ensures
        r == key_insert_pos(out@, (key@)(x), key@),
{
    let mut k: usize = 0;
    assert(out@.skip(0) =~= out@);
    while k < out.len() && !lex_lt(names[x].as_slice(), names[out[k]].as_slice())
        invariant
            k <= out@.len(),
            x < names@.len(),
            forall|j: int| 0 <= j < out@.len() ==> out@[j] < names@.len(),
            forall|i: int| 0 <= i < names@.len() ==> (key@)(i as usize) == #[trigger] names@[i]@,
            key_insert_pos(out@, (key@)(x), key@) == k + key_insert_pos(out@.skip(k as int), (key@)(x), key@),
        decreases out.len() - k,
    {
        assert(out@.skip(k as int)[0] == out@[k as int]);
        assert(names@[out@[k as int] as int]@ == (key@)(out@[k as int]));
        assert(out@.skip(k as int).drop_first() =~= out@.skip(k + 1));
        k = k + 1;
    }
    if k < out.len() {
        assert(out@.skip(k as int)[0] == out@[k as int]);
        assert(names@[out@[k as int] as int]@ == (key@)(out@[k as int]));
    }
    k
}

proof fn lemma_key_insert_pos_range(s: Seq<usize>, k: Seq<u8>, key: spec_fn(usize) -> Seq<u8>)
    ensures
        0 <= key_insert_pos(s, k, key) <= s.len(),
    decreases s.len(),
{
    if s.len() > 0 && !bytes_lt(k, key(s[0])) {
        lemma_key_insert_pos_range(s.drop_first(), k, key);
    }
}

/// The indices `idx` sorted by the names they index, equal names in their
/// original order.
fn sort_indices(names: &Vec<Vec<u8>>, idx: &Vec<usize>, key: Ghost<spec_fn(usize) -> Seq<u8>>) -> (r: Vec<usize>)
    requires
        forall|j: int| 0 <= j < idx@.len() ==> idx@[j] < names@.len(),
        forall|i: int| 0 <= i < names@.len() ==> (key@)(i as usize) == #[trigger] names@[i]@,
    ensures
        r@ == sort_by_key(idx@, key@),
{
    reveal(sort_by_key);
    let mut out: Vec<usize> = Vec::new();
    let mut i: usize = 0;
    assert(idx@.take(0) =~= Seq::<usize>::empty());
    while i < idx.len()
        invariant
            i <= idx@.len(),
            forall|j: int| 0 <= j < idx@.len() ==> idx@[j] < names@.len(),
            forall|i: int| 0 <= i < names@.len() ==> (key@)(i as usize) == #[trigger] names@[i]@,
            forall|j: int| 0 <= j < out@.len() ==> out@[j] < names@.len(),
            out@ == sort_by_key(idx@.take(i as int), key@),
        decreases idx.len() - i,
    {
        proof {
            reveal(sort_by_key);
        }
        let x = idx[i];
        let pos = key_pos(names, &out, x, key);
        proof {
            lemma_key_insert_pos_range(out@, (key@)(x), key@);
        }
        out.insert(pos, x);
        assert(idx@.take(i + 1).drop_last() =~= idx@.take(i as int));
        assert(idx@.take(i + 1).last() == x);
        i = i + 1;
    }
    assert(idx@.take(i as int) =~= idx@);
    out
}

proof fn lemma_dir_off_mono(v: RomFsBuilderView, j: int, k: int)
    requires
        0 <= j <= k,
    ensures
        dir_off(v, j) <= dir_off(v, k),
    decreases k,
{
    if j < k {
        lemma_dir_off_mono(v, j, k - 1);
    }
}

proof fn lemma_file_off_mono(v: RomFsBuilderView, j: int, k: int)
    requires
        0 <= j <= k,
    ensures
        file_off(v, j) <= file_off(v, k),
    decreases k,
{
    if j < k {
        lemma_file_off_mono(v, j, k - 1);
    }
}

proof fn lemma_data_end_mono(v: RomFsBuilderView, j: int, k: int)
    requires
        0 <= j <= k,
    ensures
        data_end(v, j) <= data_end(v, k),
        0 <= data_end(v, j),
    decreases k,
{
    if j < k {
        lemma_data_end_mono(v, j, k - 1);
    }
    if j > 0 {
        lemma_data_end_mono(v, j - 1, j - 1);
    }
}

/// The names of the directories.
fn dir_names(dirs: &Vec<DirEntry>) -> (r: Vec<Vec<u8>>)
    ensures
        r@.len() == dirs@.len(),
        forall|i: int| 0 <= i < dirs@.len() ==> #[trigger] r@[i]@ == dirs@[i].name@,
{
    let mut r: Vec<Vec<u8>> = Vec::new();
    let mut i: usize = 0;
    while i < dirs.len()
        invariant
            i <= dirs@.len(),
            r@.len() == i,
            forall|j: int| 0 <= j < i ==> #[trigger] r@[j]@ == dirs@[j].name@,
        decreases dirs.len() - i,
    {
        let mut n: Vec<u8> = Vec::new();
        push_all(&mut n, dirs[i].name.as_slice());
        assert(n@ =~= dirs@[i as int].name@);
        r.push(n);
        i = i + 1;
    }
    r
}

/// The names of the files.
fn file_names(files: &Vec<FileEntry>) -> (r: Vec<Vec<u8>>)
    ensures
        r@.len() == files@.len(),
        forall|i: int| 0 <= i < files@.len() ==> #[trigger] r@[i]@ == files@[i].name@,
{
    let mut r: Vec<Vec<u8>> = Vec::new();
    let mut i: usize = 0;
    while i < files.len()
        invariant
            i <= files@.len(),
            r@.len() == i,
            forall|j: int| 0 <= j < i ==> #[trigger] r@[j]@ == files@[j].name@,
        decreases files.len() - i,
    {
        let mut n: Vec<u8> = Vec::new();
        push_all(&mut n, files[i].name.as_slice());
        assert(n@ =~= files@[i as int].name@);
        r.push(n);
        i = i + 1;
    }
    r
}

/// Every directory's subdirectories and files, sorted by name.
fn sort_tree(dirs: &Vec<DirEntry>, files: &Vec<FileEntry>) -> (r: (Vec<Vec<usize>>, Vec<Vec<usize>>))
    requires
        tree_ok(view_of(dirs@, files@)),
    ensures
        r.0@.len() == dirs@.len(),
        r.1@.len() == dirs@.len(),
        forall|d: int| 0 <= d < dirs@.len() ==> #[trigger] r.0@[d]@ == sorted_children(view_of(dirs@, files@), d),
        forall|d: int| 0 <= d < dirs@.len() ==> #[trigger] r.1@[d]@ == sorted_files(view_of(dirs@, files@), d),
{
    let ghost v = view_of(dirs@, files@);
    let dn = dir_names(dirs);
    let fnames = file_names(files);
    let mut sc: Vec<Vec<usize>> = Vec::new();
    let mut sf: Vec<Vec<usize>> = Vec::new();
    let nf = files.len();
    let mut d: usize = 0;
    while d < dirs.len()
        invariant
            d <= dirs@.len(),
            nf == files@.len(),
            v == view_of(dirs@, files@),
            tree_ok(v),
            dn@.len() == dirs@.len(),
            fnames@.len() == files@.len(),
            forall|i: int| 0 <= i < dirs@.len() ==> #[trigger] dn@[i]@ == dirs@[i].name@,
            forall|i: int| 0 <= i < files@.len() ==> #[trigger] fnames@[i]@ == files@[i].name@,
            sc@.len() == d,
            sf@.len() == d,
            forall|e: int| 0 <= e < d ==> #[trigger] sc@[e]@ == sorted_children(v, e),
            forall|e: int| 0 <= e < d ==> #[trigger] sf@[e]@ == sorted_files(v, e),
        decreases dirs.len() - d,
    {
        assert(v.dirs[d as int].children == dirs@[d as int].children@);
        assert(v.dirs[d as int].files == dirs@[d as int].files@);
        assert(forall|i: int| 0 <= i < dn@.len() ==> (dir_key(v))(i as usize) == #[trigger] dn@[i]@);
        assert(forall|i: int| 0 <= i < fnames@.len() ==> (file_key(v))(i as usize) == #[trigger] fnames@[i]@);
        let c = sort_indices(&dn, &dirs[d].children, Ghost(dir_key(v)));
        let f = sort_indices(&fnames, &dirs[d].files, Ghost(file_key(v)));
        sc.push(c);
        sf.push(f);
        d = d + 1;
    }
    (sc, sf)
}

/// The directory entry offsets.
fn dir_offsets(dirs: &Vec<DirEntry>, files: &Vec<FileEntry>) -> (r: Vec<u32>)
    requires
        dir_off(view_of(dirs@, files@), dirs@.len() as int) + 3 <= u32::MAX,
    ensures
        r@ == dir_offs(view_of(dirs@, files@)),
{
    let ghost v = view_of(dirs@, files@);
    let mut r: Vec<u32> = Vec::new();
    let mut off: u32 = 0;
    let mut i: usize = 0;
    while i < dirs.len()
        invariant
            i <= dirs@.len(),
            v == view_of(dirs@, files@),
            dir_off(v, dirs@.len() as int) + 3 <= u32::MAX,
            off == dir_off(v, i as int),
            r@.len() == i,
            forall|j: int| 0 <= j < i ==> #[trigger] r@[j] == dir_off(v, j) as u32,
        decreases dirs.len() - i,
    {
        proof {
            lemma_dir_off_mono(v, i + 1, dirs@.len() as int);
        }
        r.push(off);
        assert(v.dirs[i as int].name == dirs@[i as int].name@);
        off = off + 0x18 + align32(dirs[i].name.len() as u32);
        i = i + 1;
    }
    assert(r@ =~= dir_offs(v));
    r
}

/// The file entry offsets.
fn file_offsets(dirs: &Vec<DirEntry>, files: &Vec<FileEntry>) -> (r: Vec<u32>)
    requires
        file_off(view_of(dirs@, files@), files@.len() as int) + 3 <= u32::MAX,
    ensures
        r@ == file_offs(view_of(dirs@, files@)),
{
    let ghost v = view_of(dirs@, files@);
    let mut r: Vec<u32> = Vec::new();
    let mut off: u32 = 0;
    let mut i: usize = 0;
    while i < files.len()
        invariant
            i <= files@.len(),
            v == view_of(dirs@, files@),
            file_off(v, files@.len() as int) + 3 <= u32::MAX,
            off == file_off(v, i as int),
            r@.len() == i,
            forall|j: int| 0 <= j < i ==> #[trigger] r@[j] == file_off(v, j) as u32,
        decreases files.len() - i,
    {
        proof {
            lemma_file_off_mono(v, i + 1, files@.len() as int);
        }
        r.push(off);
        assert(v.files[i as int].name == files@[i as int].name@);
        off = off + 0x20 + align32(files[i].name.len() as u32);
        i = i + 1;
    }
    assert(r@ =~= file_offs(v));
    r
}

/// Each file's data offset, and where the last file's data ends.
fn data_offsets(dirs: &Vec<DirEntry>, files: &Vec<FileEntry>) -> (r: (Vec<u64>, u64))
    requires
        data_end(view_of(dirs@, files@), files@.len() as int) + 15 <= u64::MAX,
    ensures
        r.0@.len() == files@.len(),
        forall|k: int| 0 <= k < files@.len() ==> #[trigger] r.0@[k] == round_up(
            data_end(view_of(dirs@, files@), k),
            16,
        ),
        r.1 == data_end(view_of(dirs@, files@), files@.len() as int),
{
    let ghost v = view_of(dirs@, files@);
    let mut r: Vec<u64> = Vec::new();
    let mut end: u64 = 0;
    let mut i: usize = 0;
    while i < files.len()
        invariant
            i <= files@.len(),
            v == view_of(dirs@, files@),
            data_end(v, files@.len() as int) + 15 <= u64::MAX,
            end == data_end(v, i as int),
            r@.len() == i,
            forall|j: int| 0 <= j < i ==> #[trigger] r@[j] == round_up(data_end(v, j), 16),
        decreases files.len() - i,
    {
        proof {
            lemma_data_end_mono(v, i + 1, files@.len() as int);
            lemma_data_end_mono(v, i as int, i as int);
        }
        let start = align64_16(end);
        r.push(start);
        assert(v.files[i as int].data == files@[i as int].data@);
        end = start + files[i].data.len() as u64;
        i = i + 1;
    }
    (r, end)
}

proof fn lemma_sort_by_key_bound(s: Seq<usize>, key: spec_fn(usize) -> Seq<u8>, bound: int)
    requires
        forall|j: int| 0 <= j < s.len() ==> s[j] < bound,
    ensures
        sort_by_key(s, key).len() == s.len(),
        forall|j: int| 0 <= j < sort_by_key(s, key).len() ==> #[trigger] sort_by_key(s, key)[j] < bound,
    decreases s.len(),
{
    reveal(sort_by_key);
    if s.len() > 0 {
        lemma_sort_by_key_bound(s.drop_last(), key, bound);
        let t = sort_by_key(s.drop_last(), key);
        lemma_key_insert_pos_range(t, key(s.last()), key);
        let k = key_insert_pos(t, key(s.last()), key);
        assert forall|j: int| 0 <= j < t.insert(k, s.last()).len() implies #[trigger] t.insert(k, s.last())[j] < bound by {
            if j < k {
                assert(t.insert(k, s.last())[j] == t[j]);
            } else if j > k {
                assert(t.insert(k, s.last())[j] == t[j - 1]);
            }
        }
    }
}

proof fn lemma_next_rough_bounds(m: int)
    requires
        m >= 0,
    ensures
        m <= next_rough(m) <= m + rough_gap(m),
        rough(next_rough(m)),
    decreases rough_gap(m),
{
    if !rough(m) {
        lemma_rough_gap_step(m);
        lemma_next_rough_bounds(m + 1);
    }
}

proof fn lemma_hash_table_count_bounds(n: usize)
    requires
        n + 0x8_0000 <= usize::MAX,
    ensures
        hash_table_count(n) >= 3,
        n < 19 || hash_table_count(n) as int == next_rough(n as int),
{
    if n >= 3 && n < 19 {
        assert(n | 1 >= n) by (bit_vector);
    } else if n >= 19 {
        lemma_next_rough_bounds(n as int);
        assert(rough_gap(n as int) < 510510);
    }
}

/// Every number from `m` up to the next rough one has a prime up to 17 as a
/// factor.
proof fn lemma_next_rough_least(m: int)
    requires
        m >= 0,
    ensures
        forall|x: int| m <= x < next_rough(m) ==> !rough(x),
    decreases rough_gap(m),
{
    if !rough(m) {
        lemma_rough_gap_step(m);
        lemma_next_rough_least(m + 1);
    }
}

/// Whether one of 2, 3, 5, 7, 11, 13 and 17 divides `x`.
pub open spec fn has_small_prime_factor(x: int) -> bool {
    x % 2 == 0 || x % 3 == 0 || x % 5 == 0 || x % 7 == 0 || x % 11 == 0 || x % 13 == 0 || x % 17 == 0
}

/// How many buckets a hash table of `n` entries has: 3 below three entries;
/// `n` itself when odd, else `n + 1`, below 19; from 19 on the least number
/// at least `n` that none of 2, 3, 5, 7, 11, 13 and 17 divides.
pub proof fn lemma_hash_table_count_law(n: usize)
    requires
        n + 0x8_0000 <= usize::MAX,
    ensures
        n < 3 ==> hash_table_count(n) == 3,
        3 <= n < 19 ==> hash_table_count(n) == (if n % 2 == 1 { n as int } else { n + 1 }),
        n >= 19 ==> {
            let r = hash_table_count(n) as int;
            &&& n <= r
            &&& !has_small_prime_factor(r)
            &&& forall|x: int| n <= x < r ==> #[trigger] has_small_prime_factor(x)
        },
{
    if 3 <= n < 19 {
        assert((n | 1) as int == (if n % 2 == 1 { n as int } else { n + 1 })) by (bit_vector)
            requires
                n < 19,
        ;
    } else if n >= 19 {
        lemma_hash_table_count_bounds(n);
        lemma_next_rough_bounds(n as int);
        lemma_next_rough_least(n as int);
        assert forall|x: int| n <= x < hash_table_count(n) as int implies #[trigger] has_small_prime_factor(x) by {
            assert(!rough(x));
        }
    }
}

proof fn lemma_dir_hash_fold_lens(v: RomFsBuilderView, k: int)
    requires
        k >= 0,
        v.dirs.len() + 0x8_0000 <= usize::MAX,
    ensures
        dir_hash_fold(v, k).0.len() == hash_table_count(v.dirs.len() as usize),
        dir_hash_fold(v, k).1.len() == k,
    decreases k,
{
    reveal(dir_hash_fold);
    lemma_hash_table_count_bounds(v.dirs.len() as usize);
    if k > 0 {
        lemma_dir_hash_fold_lens(v, k - 1);
    }
}

proof fn lemma_file_hash_fold_lens(v: RomFsBuilderView, k: int)
    requires
        k >= 0,
        v.files.len() + 0x8_0000 <= usize::MAX,
    ensures
        file_hash_fold(v, k).0.len() == hash_table_count(v.files.len() as usize),
        file_hash_fold(v, k).1.len() == k,
    decreases k,
{
    reveal(file_hash_fold);
    lemma_hash_table_count_bounds(v.files.len() as usize);
    if k > 0 {
        lemma_file_hash_fold_lens(v, k - 1);
    }
}

/// A table of `n` empty markers.
fn empty_table(n: usize) -> (r: Vec<u32>)
    ensures
        r@ == Seq::new(n as nat, |i: int| ROMFS_ENTRY_EMPTY),
{
    let mut r: Vec<u32> = Vec::new();
    let mut i: usize = 0;
    while i < n
        invariant
            i <= n,
            r@ == Seq::new(i as nat, |j: int| ROMFS_ENTRY_EMPTY),
        decreases n - i,
    {
        r.push(ROMFS_ENTRY_EMPTY);
        i = i + 1;
        assert(r@ =~= Seq::new(i as nat, |j: int| ROMFS_ENTRY_EMPTY));
    }
    r
}

/// The directory hash table and hash chain successors.
fn dir_hash_table(dirs: &Vec<DirEntry>, files: &Vec<FileEntry>, doffs: &Vec<u32>) -> (r: (Vec<u32>, Vec<u32>))
    requires
        tree_ok(view_of(dirs@, files@)),
        doffs@ == dir_offs(view_of(dirs@, files@)),
        dirs@.len() + 0x8_0000 <= usize::MAX,
    ensures
        r.0@ == dir_hash_fold(view_of(dirs@, files@), dirs@.len() as int).0,
        r.1@ == dir_hash_fold(view_of(dirs@, files@), dirs@.len() as int).1,
{
    let ghost v = view_of(dirs@, files@);
    reveal(dir_hash_fold);
    let size = romfs_get_hash_table_count(dirs.len());
    let mut table = empty_table(size);
    let mut sib: Vec<u32> = Vec::new();
    let mut d: usize = 0;
    while d < dirs.len()
        invariant
            d <= dirs@.len(),
            v == view_of(dirs@, files@),
            tree_ok(v),
            doffs@ == dir_offs(v),
            size == hash_table_count(dirs@.len() as usize),
            size >= 3,
            table@.len() == size,
            table@ == dir_hash_fold(v, d as int).0,
            sib@ == dir_hash_fold(v, d as int).1,
        decreases dirs.len() - d,
    {
        proof {
            reveal(dir_hash_fold);
        }
        let p = dirs[d].parent;
        assert(v.dirs[d as int].parent == p && v.dirs[d as int].name == dirs@[d as int].name@);
        let h = calc_path_hash(doffs[p], dirs[d].name.as_slice());
        let b = (h as usize) % size;
        sib.push(table[b]);
        table.set(b, doffs[d]);
        d = d + 1;
    }
    (table, sib)
}

/// The file hash table and hash chain successors.
fn file_hash_table(dirs: &Vec<DirEntry>, files: &Vec<FileEntry>, doffs: &Vec<u32>, foffs: &Vec<u32>) -> (r: (Vec<u32>, Vec<u32>))
    requires
        tree_ok(view_of(dirs@, files@)),
        doffs@ == dir_offs(view_of(dirs@, files@)),
        foffs@ == file_offs(view_of(dirs@, files@)),
        files@.len() + 0x8_0000 <= usize::MAX,
    ensures
        r.0@ == file_hash_fold(view_of(dirs@, files@), files@.len() as int).0,
        r.1@ == file_hash_fold(view_of(dirs@, files@), files@.len() as int).1,
{
    let ghost v = view_of(dirs@, files@);
    reveal(file_hash_fold);
    let size = romfs_get_hash_table_count(files.len());
    let mut table = empty_table(size);
    let mut sib: Vec<u32> = Vec::new();
    let mut f: usize = 0;
    while f < files.len()
        invariant
            f <= files@.len(),
            v == view_of(dirs@, files@),
            tree_ok(v),
            doffs@ == dir_offs(v),
            foffs@ == file_offs(v),
            size == hash_table_count(files@.len() as usize),
            size >= 3,
            table@.len() == size,
            table@ == file_hash_fold(v, f as int).0,
            sib@ == file_hash_fold(v, f as int).1,
        decreases files.len() - f,
    {
        proof {
            reveal(file_hash_fold);
        }
        let p = files[f].parent;
        assert(v.files[f as int].parent == p && v.files[f as int].name == files@[f as int].name@);
        let h = calc_path_hash(doffs[p], files[f].name.as_slice());
        let b = (h as usize) % size;
        sib.push(table[b]);
        table.set(b, foffs[f]);
        f = f + 1;
    }
    (table, sib)
}

/// The offset after the one at `target` in `ch`, or the empty marker.
fn next_sibling_exec(ch: &Vec<usize>, offs: &Vec<u32>, target: u32) -> (r: u32)
    requires
        forall|j: int| 0 <= j < ch@.len() ==> ch@[j] < offs@.len(),
    ensures
        r == next_sibling(ch@, offs@, target),
{
    let mut k: usize = 0;
    assert(ch@.skip(0) =~= ch@);
    while k < ch.len() && k + 1 < ch.len()
        invariant
            k <= ch@.len(),
            forall|j: int| 0 <= j < ch@.len() ==> ch@[j] < offs@.len(),
            next_sibling(ch@, offs@, target) == next_sibling(ch@.skip(k as int), offs@, target),
        decreases ch.len() - k,
    {
        assert(ch@.skip(k as int)[0] == ch@[k as int] && ch@.skip(k as int)[1] == ch@[k + 1]);
        if offs[ch[k]] == target {
            return offs[ch[k + 1]];
        }
        assert(ch@.skip(k as int).drop_first() =~= ch@.skip(k + 1));
        k = k + 1;
    }
    ROMFS_ENTRY_EMPTY
}

/// The offset of the first entry of `ch`, or the empty marker.
fn first_offset_exec(ch: &Vec<usize>, offs: &Vec<u32>) -> (r: u32)
    requires
        forall|j: int| 0 <= j < ch@.len() ==> ch@[j] < offs@.len(),
    ensures
        r == first_offset(ch@, offs@),
{
    if ch.len() == 0 {
        ROMFS_ENTRY_EMPTY
    } else {
        offs[ch[0]]
    }
}

/// Appends the name and its padding to a multiple of 4.
fn push_name(out: &mut Vec<u8>, name: &Vec<u8>)
    requires
        name@.len() + 3 <= u32::MAX,
    ensures
        final(out)@ == old(out)@ + name@ + pad4(name@.len() as int),
{
    push_all(out, name.as_slice());
    let padded = align32(name.len() as u32) as usize;
    push_zeros(out, padded - name.len());
}

proof fn lemma_dir_table_len(v: RomFsBuilderView, k: int)
    requires
        0 <= k <= v.dirs.len(),
    ensures
        dir_table(v, k).len() == dir_off(v, k),
    decreases k,
{
    if k > 0 {
        lemma_dir_table_len(v, k - 1);
        lemma_dir_entry_fields(v, k - 1);
    }
}

proof fn lemma_file_table_len(v: RomFsBuilderView, k: int)
    requires
        0 <= k <= v.files.len(),
    ensures
        file_table(v, k).len() == file_off(v, k),
    decreases k,
{
    if k > 0 {
        lemma_file_table_len(v, k - 1);
        lemma_file_entry_fields(v, k - 1);
    }
}

proof fn lemma_file_region_len(v: RomFsBuilderView, k: int)
    requires
        0 <= k <= v.files.len(),
    ensures
        file_region(v, k).len() == data_end(v, k),
    decreases k,
{
    if k > 0 {
        lemma_file_region_len(v, k - 1);
        lemma_data_end_mono(v, k - 1, k - 1);
    }
}

/// The metadata entry of directory `d`.
#[verifier::rlimit(30)]
fn dir_entry(
    dirs: &Vec<DirEntry>,
    files: &Vec<FileEntry>,
    sc: &Vec<Vec<usize>>,
    sf: &Vec<Vec<usize>>,
    doffs: &Vec<u32>,
    foffs: &Vec<u32>,
    dsib: &Vec<u32>,
    d: usize,
) -> (r: Vec<u8>)
    requires
        d < dirs@.len(),
        tree_ok(view_of(dirs@, files@)),
        sc@.len() == dirs@.len(),
        sf@.len() == dirs@.len(),
        forall|e: int| 0 <= e < dirs@.len() ==> #[trigger] sc@[e]@ == sorted_children(view_of(dirs@, files@), e),
        forall|e: int| 0 <= e < dirs@.len() ==> #[trigger] sf@[e]@ == sorted_files(view_of(dirs@, files@), e),
        doffs@ == dir_offs(view_of(dirs@, files@)),
        foffs@ == file_offs(view_of(dirs@, files@)),
        dsib@ == dir_hash_fold(view_of(dirs@, files@), dirs@.len() as int).1,
        dsib@.len() == dirs@.len(),
        dir_off(view_of(dirs@, files@), dirs@.len() as int) + 3 <= u32::MAX,
    ensures
        r@ == dir_entry_bytes(view_of(dirs@, files@), d as int),
{
    let ghost v = view_of(dirs@, files@);
    let p = dirs[d].parent;
    let ghost dn = v.dirs[d as int];
    assert(dn.parent == p && dn.name == dirs@[d as int].name@);
    proof {
        lemma_sort_by_key_bound(v.dirs[p as int].children, dir_key(v), v.dirs.len() as int);
        lemma_sort_by_key_bound(v.dirs[d as int].children, dir_key(v), v.dirs.len() as int);
        lemma_sort_by_key_bound(v.dirs[d as int].files, file_key(v), v.files.len() as int);
        lemma_dir_off_mono(v, d + 1, dirs@.len() as int);
        lemma_dir_off_mono(v, 0, d as int);
        assert(dir_off(v, d + 1) == dir_off(v, d as int) + 0x18 + round_up(dn.name.len() as int, 4));
    }
    let mut out: Vec<u8> = Vec::new();
    push_u32(&mut out, doffs[p]);
    push_u32(&mut out, next_sibling_exec(&sc[p], doffs, doffs[d]));
    push_u32(&mut out, first_offset_exec(&sc[d], doffs));
    push_u32(&mut out, first_offset_exec(&sf[d], foffs));
    push_u32(&mut out, dsib[d]);
    push_u32(&mut out, dirs[d].name.len() as u32);
    push_name(&mut out, &dirs[d].name);
    reveal(dir_entry_bytes);
    assert(out@ =~= dir_entry_bytes(v, d as int));
    out
}

/// The directory metadata table.
fn dir_table_bytes(
    dirs: &Vec<DirEntry>,
    files: &Vec<FileEntry>,
    sc: &Vec<Vec<usize>>,
    sf: &Vec<Vec<usize>>,
    doffs: &Vec<u32>,
    foffs: &Vec<u32>,
    dsib: &Vec<u32>,
) -> (r: Vec<u8>)
    requires
        tree_ok(view_of(dirs@, files@)),
        sc@.len() == dirs@.len(),
        sf@.len() == dirs@.len(),
        forall|d: int| 0 <= d < dirs@.len() ==> #[trigger] sc@[d]@ == sorted_children(view_of(dirs@, files@), d),
        forall|d: int| 0 <= d < dirs@.len() ==> #[trigger] sf@[d]@ == sorted_files(view_of(dirs@, files@), d),
        doffs@ == dir_offs(view_of(dirs@, files@)),
        foffs@ == file_offs(view_of(dirs@, files@)),
        dsib@ == dir_hash_fold(view_of(dirs@, files@), dirs@.len() as int).1,
        dsib@.len() == dirs@.len(),
        dir_off(view_of(dirs@, files@), dirs@.len() as int) + 3 <= u32::MAX,
    ensures
        r@ == dir_table(view_of(dirs@, files@), dirs@.len() as int),
{
    let ghost v = view_of(dirs@, files@);
    let mut out: Vec<u8> = Vec::new();
    let mut d: usize = 0;
    while d < dirs.len()
        invariant
            d <= dirs@.len(),
            v == view_of(dirs@, files@),
            tree_ok(v),
            sc@.len() == dirs@.len(),
            sf@.len() == dirs@.len(),
            forall|e: int| 0 <= e < dirs@.len() ==> #[trigger] sc@[e]@ == sorted_children(v, e),
            forall|e: int| 0 <= e < dirs@.len() ==> #[trigger] sf@[e]@ == sorted_files(v, e),
            doffs@ == dir_offs(v),
            foffs@ == file_offs(v),
            dsib@ == dir_hash_fold(v, dirs@.len() as int).1,
            dsib@.len() == dirs@.len(),
            dir_off(v, dirs@.len() as int) + 3 <= u32::MAX,
            out@ == dir_table(v, d as int),
        decreases dirs.len() - d,
    {
        let e = dir_entry(dirs, files, sc, sf, doffs, foffs, dsib, d);
        push_all(&mut out, e.as_slice());
        d = d + 1;
    }
    out
}

/// The metadata entry of file `f`.
#[verifier::rlimit(30)]
fn file_entry(
    dirs: &Vec<DirEntry>,
    files: &Vec<FileEntry>,
    sf: &Vec<Vec<usize>>,
    doffs: &Vec<u32>,
    foffs: &Vec<u32>,
    data_offs: &Vec<u64>,
    fsib: &Vec<u32>,
    f: usize,
) -> (r: Vec<u8>)
    requires
        f < files@.len(),
        tree_ok(view_of(dirs@, files@)),
        sf@.len() == dirs@.len(),
        forall|d: int| 0 <= d < dirs@.len() ==> #[trigger] sf@[d]@ == sorted_files(view_of(dirs@, files@), d),
        doffs@ == dir_offs(view_of(dirs@, files@)),
        foffs@ == file_offs(view_of(dirs@, files@)),
        data_offs@.len() == files@.len(),
        forall|k: int| 0 <= k < files@.len() ==> #[trigger] data_offs@[k] == round_up(
            data_end(view_of(dirs@, files@), k),
            16,
        ),
        fsib@ == file_hash_fold(view_of(dirs@, files@), files@.len() as int).1,
        fsib@.len() == files@.len(),
        file_off(view_of(dirs@, files@), files@.len() as int) + 3 <= u32::MAX,
    ensures
        r@ == file_entry_bytes(view_of(dirs@, files@), f as int),
{
    let ghost v = view_of(dirs@, files@);
    let p = files[f].parent;
    let ghost fnode = v.files[f as int];
    assert(fnode.parent == p && fnode.name == files@[f as int].name@ && fnode.data
        == files@[f as int].data@);
    proof {
        lemma_sort_by_key_bound(v.dirs[p as int].files, file_key(v), v.files.len() as int);
        lemma_file_off_mono(v, f + 1, files@.len() as int);
        lemma_file_off_mono(v, 0, f as int);
        assert(file_off(v, f + 1) == file_off(v, f as int) + 0x20 + round_up(fnode.name.len() as int, 4));
    }
    let mut out: Vec<u8> = Vec::new();
    push_u32(&mut out, doffs[p]);
    push_u32(&mut out, next_sibling_exec(&sf[p], foffs, foffs[f]));
    push_u64(&mut out, data_offs[f]);
    push_u64(&mut out, files[f].data.len() as u64);
    push_u32(&mut out, fsib[f]);
    push_u32(&mut out, files[f].name.len() as u32);
    push_name(&mut out, &files[f].name);
    reveal(file_entry_bytes);
    assert(out@ =~= file_entry_bytes(v, f as int));
    out
}

/// The file metadata table.
fn file_table_bytes(
    dirs: &Vec<DirEntry>,
    files: &Vec<FileEntry>,
    sf: &Vec<Vec<usize>>,
    doffs: &Vec<u32>,
    foffs: &Vec<u32>,
    data_offs: &Vec<u64>,
    fsib: &Vec<u32>,
) -> (r: Vec<u8>)
    requires
        tree_ok(view_of(dirs@, files@)),
        sf@.len() == dirs@.len(),
        forall|d: int| 0 <= d < dirs@.len() ==> #[trigger] sf@[d]@ == sorted_files(view_of(dirs@, files@), d),
        doffs@ == dir_offs(view_of(dirs@, files@)),
        foffs@ == file_offs(view_of(dirs@, files@)),
        data_offs@.len() == files@.len(),
        forall|k: int| 0 <= k < files@.len() ==> #[trigger] data_offs@[k] == round_up(
            data_end(view_of(dirs@, files@), k),
            16,
        ),
        fsib@ == file_hash_fold(view_of(dirs@, files@), files@.len() as int).1,
        fsib@.len() == files@.len(),
        file_off(view_of(dirs@, files@), files@.len() as int) + 3 <= u32::MAX,
    ensures
        r@ == file_table(view_of(dirs@, files@), files@.len() as int),
{
    let ghost v = view_of(dirs@, files@);
    let mut out: Vec<u8> = Vec::new();
    let mut f: usize = 0;
    while f < files.len()
        invariant
            f <= files@.len(),
            v == view_of(dirs@, files@),
            tree_ok(v),
            sf@.len() == dirs@.len(),
            forall|e: int| 0 <= e < dirs@.len() ==> #[trigger] sf@[e]@ == sorted_files(v, e),
            doffs@ == dir_offs(v),
            foffs@ == file_offs(v),
            data_offs@.len() == files@.len(),
            forall|k: int| 0 <= k < files@.len() ==> #[trigger] data_offs@[k] == round_up(data_end(v, k), 16),
            fsib@ == file_hash_fold(v, files@.len() as int).1,
            fsib@.len() == files@.len(),
            file_off(v, files@.len() as int) + 3 <= u32::MAX,
            out@ == file_table(v, f as int),
        decreases files.len() - f,
    {
        let e = file_entry(dirs, files, sf, doffs, foffs, data_offs, fsib, f);
        push_all(&mut out, e.as_slice());
        f = f + 1;
    }
    out
}

/// Appends the little-endian words of `vs`.
fn push_words(out: &mut Vec<u8>, vs: &Vec<u32>)
    ensures
        final(out)@ == old(out)@ + le32_all(vs@),
{
    let ghost before = out@;
    let mut k: usize = 0;
    assert(vs@.take(0) =~= Seq::<u32>::empty());
    while k < vs.len()
        invariant
            k <= vs@.len(),
            out@ == before + le32_all(vs@.take(k as int)),
        decreases vs.len() - k,
    {
        push_u32(out, vs[k]);
        k = k + 1;
        assert(vs@.take(k as int).drop_last() =~= vs@.take(k - 1));
        assert(out@ =~= before + le32_all(vs@.take(k as int)));
    }
    assert(vs@.take(vs.len() as int) =~= vs@);
}

proof fn lemma_le32_all_len(vs: Seq<u32>)
    ensures
        le32_all(vs).len() == 4 * vs.len(),
    decreases vs.len(),
{
    if vs.len() > 0 {
        lemma_le32_all_len(vs.drop_last());
    }
}

/// `x` rounded up to a multiple of 4.
fn align64_4(x: u64) -> (r: u64)
    requires
        x + 3 <= u64::MAX,
    ensures
        r == round_up(x as int, 4),
{
    let y = x + 3;
    let r = y & !3u64;
    assert(r == y - y % 4) by (bit_vector)
        requires
            r == y & !3u64,
    ;
    r
}

/// Appends the file data region: each file's data on a 16-byte boundary.
fn push_file_region(out: &mut Vec<u8>, dirs: &Vec<DirEntry>, files: &Vec<FileEntry>, data_offs: &Vec<u64>)
    requires
        data_offs@.len() == files@.len(),
        forall|k: int| 0 <= k < files@.len() ==> #[trigger] data_offs@[k] == round_up(
            data_end(view_of(dirs@, files@), k),
            16,
        ),
        data_end(view_of(dirs@, files@), files@.len() as int) + 15 <= u64::MAX,
    ensures
        final(out)@ == old(out)@ + file_region(view_of(dirs@, files@), files@.len() as int),
{
    let ghost v = view_of(dirs@, files@);
    let ghost head = out@;
    let mut end: u64 = 0;
    let mut k: usize = 0;
    while k < files.len()
        invariant
            k <= files@.len(),
            v == view_of(dirs@, files@),
            data_offs@.len() == files@.len(),
            forall|j: int| 0 <= j < files@.len() ==> #[trigger] data_offs@[j] == round_up(data_end(v, j), 16),
            data_end(v, files@.len() as int) + 15 <= u64::MAX,
            end == data_end(v, k as int),
            out@ == head + file_region(v, k as int),
        decreases files.len() - k,
    {
        proof {
            lemma_data_end_mono(v, k + 1, files@.len() as int);
            lemma_data_end_mono(v, k as int, k as int);
        }
        assert(v.files[k as int].data == files@[k as int].data@);
        push_zeros(out, (data_offs[k] - end) as usize);
        push_all(out, files[k].data.as_slice());
        end = data_offs[k] + files[k].data.len() as u64;
        k = k + 1;
    }
}

/// The lengths of the parts of the image.
proof fn lemma_image_parts(v: RomFsBuilderView)
    requires
        v.dirs.len() + 0x8_0000 <= usize::MAX,
        v.files.len() + 0x8_0000 <= usize::MAX,
    ensures
        file_region(v, v.files.len() as int).len() == data_end(v, v.files.len() as int),
        dir_table(v, v.dirs.len() as int).len() == dir_off(v, v.dirs.len() as int),
        file_table(v, v.files.len() as int).len() == file_off(v, v.files.len() as int),
        le32_all(dir_hash_fold(v, v.dirs.len() as int).0).len() == 4 * dir_hash_fold(
            v,
            v.dirs.len() as int,
        ).0.len(),
        le32_all(file_hash_fold(v, v.files.len() as int).0).len() == 4 * file_hash_fold(
            v,
            v.files.len() as int,
        ).0.len(),
        0 <= data_end(v, v.files.len() as int),
{
    lemma_file_region_len(v, v.files.len() as int);
    lemma_dir_table_len(v, v.dirs.len() as int);
    lemma_file_table_len(v, v.files.len() as int);
    lemma_le32_all_len(dir_hash_fold(v, v.dirs.len() as int).0);
    lemma_le32_all_len(file_hash_fold(v, v.files.len() as int).0);
    lemma_data_end_mono(v, v.files.len() as int, v.files.len() as int);
}

/// The RomFS header bytes and the directory hash table's offset.
fn romfs_header_bytes(part: u64, dh_n: usize, dt_n: usize, fh_n: usize, ft_n: usize) -> (r: (Vec<u8>, u64))
    requires
        0x200 + part + 3 <= u64::MAX,
        round_up(0x200 + part, 4) + 4 * dh_n + dt_n + 4 * fh_n + ft_n <= u64::MAX,
    ensures
        r.0@ == romfs_header(part as int, dh_n as int, dt_n as int, fh_n as int, ft_n as int),
        r.1 == round_up(0x200 + part, 4),
{
    let dh_off = align64_4(ROMFS_FILEPARTITION_OFS + part);
    let dh_size = (dh_n as u64) * 4;
    let dt_off = dh_off + dh_size;
    let fh_off = dt_off + dt_n as u64;
    let fh_size = (fh_n as u64) * 4;
    let ft_off = fh_off + fh_size;
    let mut out: Vec<u8> = Vec::new();
    push_u64(&mut out, 0x50);
    assert(out@ =~= le64(0x50));
    push_u64(&mut out, dh_off);
    push_u64(&mut out, dh_size);
    push_u64(&mut out, dt_off);
    push_u64(&mut out, dt_n as u64);
    push_u64(&mut out, fh_off);
    push_u64(&mut out, fh_size);
    push_u64(&mut out, ft_off);
    push_u64(&mut out, ft_n as u64);
    push_u64(&mut out, ROMFS_FILEPARTITION_OFS);
    push_zeros(&mut out, 0x1B0);
    (out, dh_off)
}

/// The header is 0x200 bytes long.
proof fn lemma_header_len(part: int, dh_n: int, dt_n: int, fh_n: int, ft_n: int)
    ensures
        romfs_header(part, dh_n, dt_n, fh_n, ft_n).len() == 0x200,
{
}

/// The length of the image, part by part.
#[verifier::spinoff_prover]
proof fn lemma_image_len(v: RomFsBuilderView)
    requires
        v.dirs.len() + 0x8_0000 <= usize::MAX,
        v.files.len() + 0x8_0000 <= usize::MAX,
    ensures
        ({
            let part = data_end(v, v.files.len() as int);
            let dh_n = dir_hash_fold(v, v.dirs.len() as int).0.len();
            let fh_n = file_hash_fold(v, v.files.len() as int).0.len();
            let dt_n = dir_table(v, v.dirs.len() as int).len();
            let ft_n = file_table(v, v.files.len() as int).len();
            &&& 0 <= part
            &&& 0x200 + part <= round_up(0x200 + part, 4) < 0x200 + part + 4
            &&& romfs_image(v).len() == round_up(0x200 + part, 4) + 4 * dh_n + dt_n + 4 * fh_n + ft_n
        }),
{
    reveal(romfs_image);
    let part = data_end(v, v.files.len() as int);
    lemma_image_parts(v);
    let dh_n = dir_hash_fold(v, v.dirs.len() as int).0.len();
    let fh_n = file_hash_fold(v, v.files.len() as int).0.len();
    let dt_n = dir_table(v, v.dirs.len() as int).len();
    let ft_n = file_table(v, v.files.len() as int).len();
    lemma_header_len(part, dh_n as int, dt_n as int, fh_n as int, ft_n as int);
}

/// The hash tables and metadata tables of the tree, each file's data offset,
/// and the size of the file data.
fn romfs_tables(dirs: &Vec<DirEntry>, files: &Vec<FileEntry>) -> (r: (Vec<u32>, Vec<u8>, Vec<u32>, Vec<u8>, Vec<u64>, u64))
    requires
        tree_ok(view_of(dirs@, files@)),
        romfs_fits(view_of(dirs@, files@)),
    ensures
        r.0@ == dir_hash_fold(view_of(dirs@, files@), dirs@.len() as int).0,
        r.1@ == dir_table(view_of(dirs@, files@), dirs@.len() as int),
        r.2@ == file_hash_fold(view_of(dirs@, files@), files@.len() as int).0,
        r.3@ == file_table(view_of(dirs@, files@), files@.len() as int),
        r.4@.len() == files@.len(),
        forall|k: int| 0 <= k < files@.len() ==> #[trigger] r.4@[k] == round_up(
            data_end(view_of(dirs@, files@), k),
            16,
        ),
        r.5 == data_end(view_of(dirs@, files@), files@.len() as int),
{
    let ghost v = view_of(dirs@, files@);
    proof {
        lemma_image_parts(v);
        lemma_image_len(v);
        lemma_dir_hash_fold_lens(v, v.dirs.len() as int);
        lemma_file_hash_fold_lens(v, v.files.len() as int);
    }
    let (sc, sf) = sort_tree(dirs, files);
    let doffs = dir_offsets(dirs, files);
    let foffs = file_offsets(dirs, files);
    let (data_offs, part) = data_offsets(dirs, files);
    let (dh, dsib) = dir_hash_table(dirs, files, &doffs);
    let (fh, fsib) = file_hash_table(dirs, files, &doffs, &foffs);
    let dt = dir_table_bytes(dirs, files, &sc, &sf, &doffs, &foffs, &dsib);
    let ft = file_table_bytes(dirs, files, &sf, &doffs, &foffs, &data_offs, &fsib);
    (dh, dt, fh, ft, data_offs, part)
}

/// The directory that `comps` leads to from `d` through existing
/// subdirectories, if every one exists.
pub open spec fn walk(v: RomFsBuilderView, d: usize, comps: Seq<Seq<u8>>) -> Option<usize>
    decreases comps.len(),
{
    if comps.len() == 0 {
        Some(d)
    } else {
        match find_child(v, v.dirs[d as int].children, comps[0]) {
            Some(c) => walk(v, c, comps.drop_first()),
            None => None,
        }
    }
}

/// `w` keeps every directory of `v` with its name, and its subdirectories
/// as a prefix of the new list.
pub open spec fn extends(v: RomFsBuilderView, w: RomFsBuilderView) -> bool {
    &&& v.dirs.len() <= w.dirs.len()
    &&& forall|i: int|
        0 <= i < v.dirs.len() ==> {
            &&& (#[trigger] w.dirs[i]).name == v.dirs[i].name
            &&& w.dirs[i].children.len() >= v.dirs[i].children.len()
            &&& w.dirs[i].children.take(v.dirs[i].children.len() as int) == v.dirs[i].children
        }
}

proof fn lemma_extends_trans(u: RomFsBuilderView, v: RomFsBuilderView, w: RomFsBuilderView)
    requires
        extends(u, v),
        extends(v, w),
    ensures
        extends(u, w),
{
    assert forall|i: int| 0 <= i < u.dirs.len() implies {
        &&& (#[trigger] w.dirs[i]).name == u.dirs[i].name
        &&& w.dirs[i].children.len() >= u.dirs[i].children.len()
        &&& w.dirs[i].children.take(u.dirs[i].children.len() as int) == u.dirs[i].children
    } by {
        let a = u.dirs[i].children;
        let b = v.dirs[i].children;
        let c = w.dirs[i].children;
        assert(b.take(a.len() as int) == a);
        assert(c.take(b.len() as int) == b);
        assert forall|k: int| 0 <= k < a.len() implies c[k] == a[k] by {
            assert(b.take(a.len() as int)[k] == b[k]);
            assert(c.take(b.len() as int)[k] == c[k]);
        }
        assert(c.take(a.len() as int) =~= a);
    }
}

proof fn lemma_extends_new_dir(v: RomFsBuilderView, d: usize, name: Seq<u8>)
    requires
        d < v.dirs.len(),
    ensures
        extends(v, with_new_dir(v, d, name)),
{
    let w = with_new_dir(v, d, name);
    assert forall|i: int| 0 <= i < v.dirs.len() implies {
        &&& (#[trigger] w.dirs[i]).name == v.dirs[i].name
        &&& w.dirs[i].children.len() >= v.dirs[i].children.len()
        &&& w.dirs[i].children.take(v.dirs[i].children.len() as int) == v.dirs[i].children
    } by {
        if i == d {
            assert(w.dirs[i].children.take(v.dirs[i].children.len() as int) =~= v.dirs[i].children);
        } else {
            assert(w.dirs[i] == v.dirs[i]);
            assert(w.dirs[i].children.take(v.dirs[i].children.len() as int) =~= v.dirs[i].children);
        }
    }
}

/// Looking a name up in a list that starts with `ch`, in a tree that
/// extends `v`: a hit in `ch` stays the hit; a miss goes on past `ch`.
proof fn lemma_find_child_prefix(v: RomFsBuilderView, w: RomFsBuilderView, ch: Seq<usize>, s: Seq<usize>, name: Seq<u8>)
    requires
        extends(v, w),
        s.len() >= ch.len(),
        s.take(ch.len() as int) == ch,
        forall|k: int| 0 <= k < ch.len() ==> ch[k] < v.dirs.len(),
    ensures
        find_child(v, ch, name) matches Some(c) ==> find_child(w, s, name) == Some(c),
        find_child(v, ch, name) is None ==> find_child(w, s, name) == find_child(w, s.skip(ch.len() as int), name),
    decreases ch.len(),
{
    if ch.len() == 0 {
        assert(s.skip(0) =~= s);
    } else {
        assert(s[0] == s.take(ch.len() as int)[0]);
        assert(w.dirs[ch[0] as int].name == v.dirs[ch[0] as int].name);
        if v.dirs[ch[0] as int].name != name {
            let t = ch.drop_first();
            let u = s.drop_first();
            assert forall|k: int| 0 <= k < t.len() implies u[k] == t[k] by {
                assert(s.take(ch.len() as int)[k + 1] == s[k + 1]);
            }
            assert(u.take(t.len() as int) =~= t);
            assert(u.skip(t.len() as int) =~= s.skip(ch.len() as int));
            lemma_find_child_prefix(v, w, t, u, name);
        }
    }
}

/// Navigating creates what is missing: the resulting tree extends the old
/// one, stays well formed, and in it the path leads, through existing
/// directories, to the directory navigation ended in.
proof fn lemma_navigate_walk(v: RomFsBuilderView, d: usize, comps: Seq<Seq<u8>>)
    requires
        tree_ok(v),
        d < v.dirs.len(),
        v.dirs.len() + comps.len() <= usize::MAX,
    ensures
        tree_ok(navigate(v, d, comps).0),
        navigate(v, d, comps).1 < navigate(v, d, comps).0.dirs.len(),
        navigate(v, d, comps).0.files == v.files,
        extends(v, navigate(v, d, comps).0),
        walk(navigate(v, d, comps).0, d, comps) == Some(navigate(v, d, comps).1),
    decreases comps.len(),
{
    let (w, e) = navigate(v, d, comps);
    if comps.len() == 0 {
        assert forall|i: int| 0 <= i < v.dirs.len() implies
            (#[trigger] v.dirs[i]).children.take(v.dirs[i].children.len() as int) == v.dirs[i].children by {
            assert(v.dirs[i].children.take(v.dirs[i].children.len() as int) =~= v.dirs[i].children);
        }
    } else {
        let ch = v.dirs[d as int].children;
        assert(v.dirs[d as int].parent < v.dirs.len());
        match find_child(v, ch, comps[0]) {
            Some(c) => {
                lemma_find_child_in(v, ch, comps[0]);
                lemma_navigate_walk(v, c, comps.drop_first());
                assert(w.dirs[d as int].children.take(ch.len() as int) == ch);
                lemma_find_child_prefix(v, w, ch, w.dirs[d as int].children, comps[0]);
                assert(find_child(w, w.dirs[d as int].children, comps[0]) == Some(c));
            },
            None => {
                let n = v.dirs.len() as usize;
                let v1 = with_new_dir(v, d, comps[0]);
                lemma_with_new_dir_ok(v, d, comps[0]);
                lemma_extends_new_dir(v, d, comps[0]);
                lemma_navigate_walk(v1, n, comps.drop_first());
                lemma_extends_trans(v, v1, w);
                let s = w.dirs[d as int].children;
                assert(v1.dirs[d as int].children == ch.push(n));
                assert(s.take(ch.push(n).len() as int) == ch.push(n));
                assert(s.take(ch.len() as int) =~= ch) by {
                    assert forall|k: int| 0 <= k < ch.len() implies s.take(ch.len() as int)[k] == ch[k] by {
                        assert(s.take(ch.push(n).len() as int)[k] == ch.push(n)[k]);
                    }
                }
                lemma_find_child_prefix(v, w, ch, s, comps[0]);
                assert(s.skip(ch.len() as int)[0] == n) by {
                    assert(s.take(ch.push(n).len() as int)[ch.len() as int] == n);
                }
                assert(v1.dirs[n as int].name == comps[0]);
                assert(w.dirs[n as int].name == v1.dirs[n as int].name);
                assert(find_child(w, s.skip(ch.len() as int), comps[0]) == Some(n));
                assert(find_child(w, s, comps[0]) == Some(n));
                assert(walk(w, n, comps.drop_first()) == Some(e));
            },
        }
    }
}

proof fn lemma_components_len(p: Seq<u8>)
    ensures
        components(p).len() <= p.len(),
    decreases p.len(),
{
    lemma_first_slash_bounds(p);
    let k = first_slash(p);
    if k < p.len() {
        lemma_components_len(p.skip(k + 1));
    }
}

/// A walk reads only names and subdirectory lists.
proof fn lemma_walk_same_shape(u: RomFsBuilderView, w: RomFsBuilderView, d: usize, comps: Seq<Seq<u8>>)
    requires
        tree_ok(u),
        d < u.dirs.len(),
        u.dirs.len() == w.dirs.len(),
        forall|i: int| 0 <= i < u.dirs.len() ==> (#[trigger] w.dirs[i]).name == u.dirs[i].name
            && w.dirs[i].children == u.dirs[i].children,
    ensures
        walk(w, d, comps) == walk(u, d, comps),
    decreases comps.len(),
{
    if comps.len() > 0 {
        let ch = u.dirs[d as int].children;
        assert(u.dirs[d as int].parent < u.dirs.len());
        assert(w.dirs[d as int].children == ch);
        lemma_find_child_same(u, w, ch, comps[0]);
        lemma_find_child_in(u, ch, comps[0]);
        if find_child(u, ch, comps[0]) is Some {
            lemma_walk_same_shape(u, w, find_child(u, ch, comps[0])->Some_0, comps.drop_first());
        }
    }
}

proof fn lemma_find_child_same(u: RomFsBuilderView, w: RomFsBuilderView, ch: Seq<usize>, name: Seq<u8>)
    requires
        forall|k: int| 0 <= k < ch.len() ==> ch[k] < u.dirs.len(),
        u.dirs.len() == w.dirs.len(),
        forall|i: int| 0 <= i < u.dirs.len() ==> (#[trigger] w.dirs[i]).name == u.dirs[i].name,
    ensures
        find_child(w, ch, name) == find_child(u, ch, name),
    decreases ch.len(),
{
    if ch.len() > 0 {
        assert(w.dirs[ch[0] as int].name == u.dirs[ch[0] as int].name);
        lemma_find_child_same(u, w, ch.drop_first(), name);
    }
}

/// Where the path leads through existing directories, navigation changes
/// nothing.
proof fn lemma_walk_navigate(u: RomFsBuilderView, d: usize, comps: Seq<Seq<u8>>)
    requires
        walk(u, d, comps) is Some,
    ensures
        navigate(u, d, comps) == (u, walk(u, d, comps)->Some_0),
    decreases comps.len(),
{
    if comps.len() > 0 {
        let c = find_child(u, u.dirs[d as int].children, comps[0])->Some_0;
        lemma_walk_navigate(u, c, comps.drop_first());
    }
}

/// Once a file has been added at a path, adding another at that path fails
/// with a duplicate entry.
pub proof fn lemma_add_file_twice_is_duplicate(v: RomFsBuilderView, p: Seq<u8>, first: Seq<u8>, second: Seq<u8>)
    requires
        tree_ok(v),
        v.dirs.len() + p.len() <= usize::MAX,
        v.files.len() < usize::MAX,
        add_file_spec(v, p, first) is Ok,
    ensures
        add_file_spec(add_file_spec(v, p, first)->Ok_0, p, second) == Err::<RomFsBuilderView, int>(1),
{
    let comps = components(p.skip(1));
    let dcomps = comps.drop_last();
    lemma_components_len(p.skip(1));
    let (w, d) = navigate(v, 0, dcomps);
    lemma_navigate_walk(v, 0, dcomps);
    let w1 = add_file_spec(v, p, first)->Ok_0;
    let n = w.files.len() as usize;
    assert(w1.dirs.len() == w.dirs.len());
    assert forall|i: int| 0 <= i < w.dirs.len() implies (#[trigger] w1.dirs[i]).name == w.dirs[i].name
        && w1.dirs[i].children == w.dirs[i].children by {}
    lemma_walk_same_shape(w, w1, 0, dcomps);
    lemma_walk_navigate(w1, 0, dcomps);
    assert(navigate(w1, 0, dcomps) == (w1, d));
    let k = w.dirs[d as int].files.len() as int;
    assert(w1.dirs[d as int].files[k] == n);
    assert(w1.files[n as int].name == comps.last());
    assert(has_file(w1, d, comps.last()));
}

impl RomFsBuilder {
    /// Create a builder holding only the root directory.
    pub fn new() -> (r: Self)
        ensures
            r@ == romfs_builder_empty(),
    {
        let mut dirs: Vec<DirEntry> = Vec::new();
        dirs.push(DirEntry { name: Vec::new(), children: Vec::new(), files: Vec::new(), parent: 0 });
        let files: Vec<FileEntry> = Vec::new();
        assert(dirs_view(dirs@) =~= romfs_builder_empty().dirs);
        assert(files_view(files@) =~= Seq::<RomFsFileNode>::empty());
        RomFsBuilder { dirs, files }
    }
    /// Add a file by absolute path (`/` separated), creating the directories
    /// on the way.
    ///
    /// Fails with an invalid path when the path does not start with `/` or
    /// has an empty component (`/`, `/a//b`, `/a/`), and with a duplicate
    /// entry when a file or a directory already stands at the path or a file
    /// stands at one of its parent paths.
    pub fn add_file(self, path: String, data: Vec<u8>) -> (r: Result<Self, BuildError>)
        ensures
            match add_file_spec(self@, vstd::utf8::encode_utf8(path@), data@) {
                Ok(w) => r matches Ok(b) && b@ == w,
                Err(c) => c == 0 && (r matches Err(BuildError::InvalidPath { path: p }) && p@ == path@)
                    || c == 1 && (r matches Err(BuildError::DuplicateEntry { path: p }) && p@ == path@),
            },
    {
        proof {
            use_type_invariant(&self);
        }
        let ghost v0 = self@;
        let pb = path.as_str().as_bytes();
        let ghost pbv = vstd::utf8::encode_utf8(path@);
        assert(pbv == pb@);
        if pb.len() == 0 || pb[0] != 0x2F {
            return Err(BuildError::InvalidPath { path });
        }
        assert(pb@.skip(1) == pbv.skip(1));
        if empty_component_exec(pb) {
            return Err(BuildError::InvalidPath { path });
        }
        let mut comps = split_components(pb, 1);
        if comps.len() == 0 {
            return Err(BuildError::InvalidPath { path });
        }
        let ghost cv = comps@.map_values(|c: Vec<u8>| c@);
        let file_name = comps.pop().unwrap();
        assert(file_name@ == cv.last());
        let ghost dcomps = cv.drop_last();
        assert(comps@.map_values(|c: Vec<u8>| c@) =~= dcomps);
        let RomFsBuilder { mut dirs, mut files } = self;
        let mut current: usize = 0;
        let ghost mut i: int = 0;
        assert(dcomps.skip(0) =~= dcomps);
        while comps.len() > 0
            invariant
                0 <= i <= dcomps.len(),
                file_name@ == cv.last(),
                cv.len() > 0,
                dcomps == cv.drop_last(),
                comps@.len() + i == dcomps.len(),
                comps@.map_values(|c: Vec<u8>| c@) == dcomps.skip(i),
                tree_ok(RomFsBuilderView { dirs: dirs_view(dirs@), files: files_view(files@) }),
                current < dirs@.len(),
                navigate(v0, 0, dcomps) == navigate(
                    RomFsBuilderView { dirs: dirs_view(dirs@), files: files_view(files@) },
                    current,
                    dcomps.skip(i),
                ),
                nav_file_conflict(v0, 0, dcomps) == nav_file_conflict(
                    RomFsBuilderView { dirs: dirs_view(dirs@), files: files_view(files@) },
                    current,
                    dcomps.skip(i),
                ),
                v0 == self@,
                pbv == vstd::utf8::encode_utf8(path@),
                pbv.len() > 0 && pbv[0] == 0x2F,
                !empty_component(pbv.skip(1)),
                cv == components(pbv.skip(1)),
            decreases comps.len(),
        {
            let ghost v = RomFsBuilderView { dirs: dirs_view(dirs@), files: files_view(files@) };
            assert(comps@.map_values(|c: Vec<u8>| c@)[0] == dcomps[i]);
            let ghost old_comps = comps@;
            let name = comps.remove(0);
            assert(comps@.map_values(|c: Vec<u8>| c@) =~= old_comps.map_values(|c: Vec<u8>| c@).drop_first());
            assert(dcomps.skip(i).drop_first() =~= dcomps.skip(i + 1));
            assert(dcomps.skip(i)[0] == name@);
            if has_file_exec(&dirs, &files, current, &name) {
                // A file stands where a directory of the path is wanted.
                return Err(BuildError::DuplicateEntry { path });
            }
            proof {
                lemma_find_child_in(v, v.dirs[current as int].children, name@);
            }
            match find_child_exec(&dirs, &files, current, &name) {
                Some(c) => {
                    current = c;
                },
                None => {
                    let idx = dirs.len();
                    proof {
                        lemma_with_new_dir_ok(v, current, name@);
                    }
                    dirs.push(DirEntry { name, children: Vec::new(), files: Vec::new(), parent: current });
                    push_child(&mut dirs, current, idx);
                    assert(dirs_view(dirs@) =~= with_new_dir(v, current, dcomps[i]).dirs);
                    current = idx;
                },
            }
            proof {
                i = i + 1;
            }
        }
        let ghost w = RomFsBuilderView { dirs: dirs_view(dirs@), files: files_view(files@) };
        assert(dcomps.skip(i) =~= Seq::<Seq<u8>>::empty());
        assert(navigate(v0, 0, dcomps) == (w, current));
        assert(!nav_file_conflict(v0, 0, dcomps));
        // An entry of that name already in the directory.
        if has_file_exec(&dirs, &files, current, &file_name) || find_child_exec(
            &dirs,
            &files,
            current,
            &file_name,
        ).is_some() {
            return Err(BuildError::DuplicateEntry { path });
        }
        let n = files.len();
        files.push(FileEntry { name: file_name, data, parent: current });
        push_file(&mut dirs, current, n);
        let ghost target = add_file_spec(v0, vstd::utf8::encode_utf8(path@), data@)->Ok_0;
        assert(files_view(files@) =~= target.files);
        assert(dirs_view(dirs@) =~= target.dirs);
        proof {
            let nv = RomFsBuilderView { dirs: dirs_view(dirs@), files: files_view(files@) };
            assert forall|e: int| 0 <= e < nv.dirs.len() implies {
                &&& (#[trigger] nv.dirs[e]).parent < nv.dirs.len()
                &&& forall|k: int| 0 <= k < nv.dirs[e].children.len() ==> nv.dirs[e].children[k] < nv.dirs.len()
                &&& forall|k: int| 0 <= k < nv.dirs[e].files.len() ==> nv.dirs[e].files[k] < nv.files.len()
            } by {
                assert(w.dirs[e].parent < w.dirs.len());
            }
        }
        Ok(RomFsBuilder { dirs, files })
    }
    /// Whether the image [`RomFsBuilder::build`] lays out fits: every entry
    /// offset in 32 bits and the image in memory ([`romfs_fits`]).
    #[verifier::rlimit(40)]
    pub fn layout_fits(&self) -> (r: bool)
        ensures
            r == romfs_fits(self@),
    {
        proof {
            use_type_invariant(self);
        }
        let ghost v = self@;
        let nd = self.dirs.len();
        let nf = self.files.len();
        if nd > usize::MAX - 0x8_0000 || nf > usize::MAX - 0x8_0000 {
            return false;
        }
        // The directory table.
        let mut dt: u64 = 0;
        let mut k: usize = 0;
        while k < nd
            invariant
                v == self@,
                nd == v.dirs.len(),
                k <= nd,
                dt == dir_off(v, k as int),
                dt + 3 <= u32::MAX,
            decreases nd - k,
        {
            let len = self.dirs[k].name.len();
            assert(len == v.dirs[k as int].name.len());
            if len > u32::MAX as usize {
                proof {
                    lemma_dir_off_mono(v, k + 1, nd as int);
                }
                return false;
            }
            let next = dt as u128 + 0x18 + round_up_4_u128(len as u128);
            if next + 3 > u32::MAX as u128 {
                proof {
                    lemma_dir_off_mono(v, k + 1, nd as int);
                }
                return false;
            }
            dt = next as u64;
            k = k + 1;
        }
        // The file table.
        let mut ft: u64 = 0;
        let mut k: usize = 0;
        while k < nf
            invariant
                v == self@,
                nf == v.files.len(),
                k <= nf,
                ft == file_off(v, k as int),
                ft + 3 <= u32::MAX,
            decreases nf - k,
        {
            let len = self.files[k].name.len();
            assert(len == v.files[k as int].name.len());
            if len > u32::MAX as usize {
                proof {
                    lemma_file_off_mono(v, k + 1, nf as int);
                }
                return false;
            }
            let next = ft as u128 + 0x20 + round_up_4_u128(len as u128);
            if next + 3 > u32::MAX as u128 {
                proof {
                    lemma_file_off_mono(v, k + 1, nf as int);
                }
                return false;
            }
            ft = next as u64;
            k = k + 1;
        }
        // The file data region.
        proof {
            lemma_image_len(v);
            lemma_dir_hash_fold_lens(v, nd as int);
            lemma_file_hash_fold_lens(v, nf as int);
            lemma_image_parts(v);
        }
        let mut part: u128 = 0;
        let mut k: usize = 0;
        while k < nf
            invariant
                v == self@,
                nf == v.files.len(),
                k <= nf,
                part == data_end(v, k as int),
                part <= usize::MAX,
                0x200 + data_end(v, nf as int) <= romfs_image(v).len(),
            decreases nf - k,
        {
            let len = self.files[k].data.len();
            assert(len == v.files[k as int].data.len());
            let next = round_up_16_u128(part) + len as u128;
            proof {
                lemma_data_end_mono(v, k + 1, nf as int);
            }
            if next > usize::MAX as u128 {
                return false;
            }
            part = next;
            k = k + 1;
        }
        let dh = romfs_get_hash_table_count(nd) as u128;
        let fh = romfs_get_hash_table_count(nf) as u128;
        let total = round_up_4_u128(0x200 + part) + 4 * dh + dt as u128 + 4 * fh + ft as u128;
        proof {
            lemma_dir_table_len(v, nd as int);
            lemma_file_table_len(v, nf as int);
        }
        total <= usize::MAX as u128
    }

    /// Build the RomFS image when [`RomFsBuilder::layout_fits`] holds, and
    /// `None` otherwise.
    pub fn try_build(self) -> (r: Option<Result<Vec<u8>, BuildError>>)
        ensures
            r is Some <==> romfs_fits(self@),
            r matches Some(b) ==> match romfs_build_spec(self@) {
                None => b matches Err(BuildError::Empty),
                Some(image) => b matches Ok(x) && x@ == image,
            },
    {
        if self.layout_fits() {
            Some(self.build())
        } else {
            None
        }
    }

    /// Build the RomFS image: the 0x50-byte header, zeros up to 0x200, the
    /// file data (each file on a 16-byte boundary), then on a 4-byte
    /// boundary the directory hash table, the directory table, the file hash
    /// table and the file table. Every directory's subdirectories and files
    /// are chained in name order.
    ///
    /// Fails when no file was added.
    #[verifier::spinoff_prover]
    #[verifier::rlimit(40)]
    pub fn build(self) -> (r: Result<Vec<u8>, BuildError>)
        requires
            romfs_fits(self@),
        ensures
            match romfs_build_spec(self@) {
                None => r matches Err(BuildError::Empty),
                Some(image) => r matches Ok(b) && b@ == image,
            },
    {
        proof {
            use_type_invariant(&self);
        }
        let ghost v = self@;
        if self.files.len() == 0 {
            return Err(BuildError::Empty);
        }
        let RomFsBuilder { dirs, files } = self;
        assert(v == view_of(dirs@, files@));
        let (dh, dt, fh, ft, data_offs, part) = romfs_tables(&dirs, &files);
        proof {
            lemma_image_len(v);
        }
        let (mut out, dh_off) = romfs_header_bytes(part, dh.len(), dt.len(), fh.len(), ft.len());
        push_file_region(&mut out, &dirs, &files, &data_offs);
        push_zeros(&mut out, (dh_off - ROMFS_FILEPARTITION_OFS - part) as usize);
        push_words(&mut out, &dh);
        push_all(&mut out, dt.as_slice());
        push_words(&mut out, &fh);
        push_all(&mut out, ft.as_slice());
        assert(out@ =~= romfs_image(v)) by {
            reveal(romfs_image);
        }
        Ok(out)
    }

    /// Add a directory named `name` under directory `parent` without
    /// looking for one of that name, as a scan of a directory tree on disk
    /// does; gives the builder and the new directory's index.
    pub fn add_scanned_dir(self, parent: usize, name: String) -> (r: (Self, usize))
        requires
            parent < self@.dirs.len(),
        ensures
            r.0@ == with_new_dir(self@, parent, vstd::utf8::encode_utf8(name@)),
            r.1 == self@.dirs.len(),
    {
        proof {
            use_type_invariant(&self);
        }
        let ghost v = self@;
        let RomFsBuilder { mut dirs, files } = self;
        let mut n: Vec<u8> = Vec::new();
        push_all(&mut n, name.as_str().as_bytes());
        let idx = dirs.len();
        proof {
            lemma_with_new_dir_ok(v, parent, n@);
        }
        dirs.push(DirEntry { name: n, children: Vec::new(), files: Vec::new(), parent });
        push_child(&mut dirs, parent, idx);
        assert(dirs_view(dirs@) =~= with_new_dir(v, parent, vstd::utf8::encode_utf8(name@)).dirs);
        (RomFsBuilder { dirs, files }, idx)
    }

    /// Add a file named `name` with `data` to directory `parent` without
    /// looking for one of that name, as a scan of a directory tree on disk
    /// does.
    pub fn add_scanned_file(self, parent: usize, name: String, data: Vec<u8>) -> (r: Self)
        requires
            parent < self@.dirs.len(),
        ensures
            r@ == with_new_file(self@, parent, vstd::utf8::encode_utf8(name@), data@),
    {
        proof {
            use_type_invariant(&self);
        }
        let ghost v = self@;
        let RomFsBuilder { mut dirs, mut files } = self;
        let mut n: Vec<u8> = Vec::new();
        push_all(&mut n, name.as_str().as_bytes());
        let idx = files.len();
        files.push(FileEntry { name: n, data, parent });
        push_file(&mut dirs, parent, idx);
        proof {
            let nv = RomFsBuilderView { dirs: dirs_view(dirs@), files: files_view(files@) };
            assert(files_view(files@) =~= v.files.push(
                RomFsFileNode { name: vstd::utf8::encode_utf8(name@), data: data@, parent },
            ));
            assert forall|e: int| 0 <= e < nv.dirs.len() implies {
                &&& (#[trigger] nv.dirs[e]).parent < nv.dirs.len()
                &&& forall|k: int| 0 <= k < nv.dirs[e].children.len() ==> nv.dirs[e].children[k] < nv.dirs.len()
                &&& forall|k: int| 0 <= k < nv.dirs[e].files.len() ==> nv.dirs[e].files[k] < nv.files.len()
            } by {
                assert(v.dirs[e].parent < v.dirs.len());
            }
        }
        RomFsBuilder { dirs, files }
    }
}

impl Default for RomFsBuilder {
    fn default() -> (r: Self)
        ensures
            r@ == romfs_builder_empty(),
    {
        Self::new()
    }
}


/// The header's words, read back at their offsets.
#[verifier::spinoff_prover]
#[verifier::rlimit(40)]
proof fn lemma_romfs_header_words(dh: (u64, u64), dt: (u64, u64), fh: (u64, u64), ft: (u64, u64))
    ensures
        ({
            let h = romfs_header_words(dh, dt, fh, ft);
            &&& h.len() == 0x200
            &&& u64_of(h, 0) == 0x50
            &&& u64_of(h, 0x08) == dh.0
            &&& u64_of(h, 0x10) == dh.1
            &&& u64_of(h, 0x18) == dt.0
            &&& u64_of(h, 0x20) == dt.1
            &&& u64_of(h, 0x28) == fh.0
            &&& u64_of(h, 0x30) == fh.1
            &&& u64_of(h, 0x38) == ft.0
            &&& u64_of(h, 0x40) == ft.1
            &&& u64_of(h, 0x48) == 0x200
        }),
{
    let p1 = le64(0x50);
    let p2 = p1 + le64(dh.0);
    let p3 = p2 + le64(dh.1);
    let p4 = p3 + le64(dt.0);
    let p5 = p4 + le64(dt.1);
    let p6 = p5 + le64(fh.0);
    let p7 = p6 + le64(fh.1);
    let p8 = p7 + le64(ft.0);
    let p9 = p8 + le64(ft.1);
    let p10 = p9 + le64(0x200);
    let h = p10 + zeros(0x1B0);
    assert(romfs_header_words(dh, dt, fh, ft) == h);
    lemma_le64_read(0x50);
    lemma_words_kept(p1, le64(dh.0));
    lemma_u64_appended(p1, dh.0);
    lemma_u64_appended(p2, dh.1);
    lemma_u64_appended(p3, dt.0);
    lemma_u64_appended(p4, dt.1);
    lemma_u64_appended(p5, fh.0);
    lemma_u64_appended(p6, fh.1);
    lemma_u64_appended(p7, ft.0);
    lemma_u64_appended(p8, ft.1);
    lemma_u64_appended(p9, 0x200);
    lemma_words_kept(p2, le64(dh.1));
    lemma_words_kept(p3, le64(dt.0));
    lemma_words_kept(p4, le64(dt.1));
    lemma_words_kept(p5, le64(fh.0));
    lemma_words_kept(p6, le64(fh.1));
    lemma_words_kept(p7, le64(ft.0));
    lemma_words_kept(p8, le64(ft.1));
    lemma_words_kept(p9, le64(0x200));
    lemma_words_kept(p10, zeros(0x1B0));
}


/// A buffer laid out as a header, the file region, padding, the directory
/// hash table, the directory table, the file hash table and the file table,
/// whose header gives those places: it passes the reader's checks, and the
/// reader's metadata tables are the ones laid out.
proof fn lemma_romfs_layout_reads(b: Seq<u8>, parts: (Seq<u8>, Seq<u8>, Seq<u8>, Seq<u8>, Seq<u8>, Seq<u8>, Seq<u8>))
    requires
        ({
            let (h, r1, zp, w1, dt, w2, ft) = parts;
            let dh_off = 0x200 + r1.len() + zp.len();
            let dt_off = dh_off + w1.len();
            let fh_off = dt_off + dt.len();
            let ft_off = fh_off + w2.len();
            &&& b == h + r1 + zp + w1 + dt + w2 + ft
            &&& h.len() == 0x200
            &&& ft_off + ft.len() <= usize::MAX
            &&& u64_of(h, 0) == 0x50
            &&& u64_of(h, 0x08) == dh_off
            &&& u64_of(h, 0x10) == w1.len()
            &&& u64_of(h, 0x18) == dt_off
            &&& u64_of(h, 0x20) == dt.len()
            &&& u64_of(h, 0x28) == fh_off
            &&& u64_of(h, 0x30) == w2.len()
            &&& u64_of(h, 0x38) == ft_off
            &&& u64_of(h, 0x40) == ft.len()
            &&& u64_of(h, 0x48) == 0x200
        }),
    ensures
        romfs_error(b) is None,
        romfs_header_at(b).file_data_offset == 0x200,
        crate::read::romfs::dir_table(b) == parts.4,
        crate::read::romfs::file_table(b) == parts.6,
{
    let (h, r1, zp, w1, dt, w2, ft) = parts;
    let s1 = h + r1;
    let s2 = s1 + zp;
    let s3 = s2 + w1;
    let s4 = s3 + dt;
    let s5 = s4 + w2;
    assert(b == s5 + ft);
    lemma_words_kept(h, r1);
    lemma_words_kept(s1, zp);
    lemma_words_kept(s2, w1);
    lemma_words_kept(s3, dt);
    lemma_words_kept(s4, w2);
    lemma_words_kept(s5, ft);
    lemma_romfs_header_at_words(b);
    let dt_off = s3.len() as int;
    let ft_off = s5.len() as int;
    assert(b.subrange(dt_off, dt_off + dt.len()) =~= dt);
    assert(b.subrange(ft_off, ft_off + ft.len()) =~= ft);
}

/// What a RomFS build writes passes every check of the RomFS reader: the
/// header has size 0x50, the four tables lie within the image and the file
/// data starts at 0x200; and the directory and file metadata tables the
/// reader looks entries up in are the ones the builder wrote.
pub proof fn lemma_built_romfs_passes_checks(v: RomFsBuilderView)
    requires
        romfs_fits(v),
    ensures
        romfs_error(romfs_image(v)) is None,
        romfs_header_at(romfs_image(v)).file_data_offset == 0x200,
        crate::read::romfs::dir_table(romfs_image(v)) == dir_table(v, v.dirs.len() as int),
        crate::read::romfs::file_table(romfs_image(v)) == file_table(v, v.files.len() as int),
{
    let nd = v.dirs.len() as int;
    let nf = v.files.len() as int;
    let part = data_end(v, nf);
    let dh = dir_hash_fold(v, nd).0;
    let fh = file_hash_fold(v, nf).0;
    let dt = dir_table(v, nd);
    let ft = file_table(v, nf);
    lemma_image_len(v);
    lemma_image_parts(v);
    let dh_off = round_up(0x200 + part, 4);
    let dt_off = dh_off + 4 * dh.len();
    let fh_off = dt_off + dt.len();
    let ft_off = fh_off + 4 * fh.len();
    lemma_romfs_header_words(
        (dh_off as u64, (4 * dh.len()) as u64),
        (dt_off as u64, dt.len() as u64),
        (fh_off as u64, (4 * fh.len()) as u64),
        (ft_off as u64, ft.len() as u64),
    );
    let h = romfs_header(part, dh.len() as int, dt.len() as int, fh.len() as int, ft.len() as int);
    let r1 = file_region(v, nf);
    let zp = zeros((dh_off - 0x200 - part) as nat);
    reveal(romfs_image);
    lemma_romfs_layout_reads(romfs_image(v), (h, r1, zp, le32_all(dh), dt, le32_all(fh), ft));
}

/// The metadata entry of file `f` decodes to the values it was built from.
#[verifier::rlimit(30)]
proof fn lemma_file_entry_fields(v: RomFsBuilderView, f: int)
    requires
        0 <= f < v.files.len(),
    ensures
        file_entry_bytes(v, f).len() == 0x20 + round_up(v.files[f].name.len() as int, 4),
        file_entry_bytes(v, f).subrange(0x20, 0x20 + v.files[f].name.len() as int) == v.files[f].name,
        u64_of(file_entry_bytes(v, f), 8) == round_up(data_end(v, f), 16) as u64,
        u64_of(file_entry_bytes(v, f), 16) == v.files[f].data.len() as u64,
        u32_of(file_entry_bytes(v, f), 28) == v.files[f].name.len() as u32,
        u32_of(file_entry_bytes(v, f), 4) == next_sibling(
            sorted_files(v, v.files[f].parent as int),
            file_offs(v),
            file_offs(v)[f],
        ),
{
    let fnode = v.files[f];
    let doffs = dir_offs(v);
    let foffs = file_offs(v);
    let n = fnode.name.len() as int;
    let p1 = le32(doffs[fnode.parent as int]);
    let p2 = p1 + le32(next_sibling(sorted_files(v, fnode.parent as int), foffs, foffs[f]));
    let p3 = p2 + le64(round_up(data_end(v, f), 16) as u64);
    let p4 = p3 + le64(fnode.data.len() as u64);
    let p5 = p4 + le32(file_hash_fold(v, v.files.len() as int).1[f]);
    let p6 = p5 + le32(n as u32);
    let p7 = p6 + fnode.name;
    let e = p7 + pad4(n);
    reveal(file_entry_bytes);
    assert(file_entry_bytes(v, f) == e);
    lemma_le64_read(0);
    lemma_word_appended(p1, next_sibling(sorted_files(v, fnode.parent as int), foffs, foffs[f]));
    lemma_words_kept(p2, le64(round_up(data_end(v, f), 16) as u64));
    lemma_u64_appended(p2, round_up(data_end(v, f), 16) as u64);
    lemma_u64_appended(p3, fnode.data.len() as u64);
    lemma_word_appended(p5, n as u32);
    lemma_words_kept(p3, le64(fnode.data.len() as u64));
    lemma_words_kept(p4, le32(file_hash_fold(v, v.files.len() as int).1[f]));
    lemma_words_kept(p5, le32(n as u32));
    lemma_words_kept(p6, fnode.name);
    lemma_words_kept(p7, pad4(n));
    assert(e.subrange(0x20, 0x20 + n) =~= fnode.name);
}

/// Entry `f` lies in the file table at its offset.
#[verifier::spinoff_prover]
#[verifier::rlimit(60)]
proof fn lemma_file_table_entry(v: RomFsBuilderView, k: int, f: int)
    requires
        0 <= f < k <= v.files.len(),
    ensures
        file_off(v, f + 1) == file_off(v, f) + file_entry_bytes(v, f).len(),
        file_table(v, k).subrange(file_off(v, f), file_off(v, f + 1)) == file_entry_bytes(v, f),
    decreases k,
{
    lemma_file_entry_fields(v, f);
    lemma_file_table_len(v, k - 1);
    if f == k - 1 {
        assert(file_table(v, k).subrange(file_off(v, f), file_off(v, f + 1)) =~= file_entry_bytes(v, f));
    } else {
        lemma_file_table_entry(v, k - 1, f);
        lemma_file_off_mono(v, f + 1, k - 1);
        lemma_file_off_mono(v, 0, f);
        lemma_ranges_kept(file_table(v, k - 1), file_entry_bytes(v, k - 1));
        assert(file_table(v, k) == file_table(v, k - 1) + file_entry_bytes(v, k - 1));
    }
}

/// File `f`'s data lies in the file region at its 16-byte aligned offset.
proof fn lemma_file_region_data(v: RomFsBuilderView, k: int, f: int)
    requires
        0 <= f < k <= v.files.len(),
    ensures
        file_region(v, k).subrange(round_up(data_end(v, f), 16), data_end(v, f + 1)) == v.files[f].data,
        data_end(v, f + 1) == round_up(data_end(v, f), 16) + v.files[f].data.len(),
    decreases k,
{
    lemma_file_region_len(v, k - 1);
    lemma_data_end_mono(v, f, f);
    if f == k - 1 {
        assert(file_region(v, k).subrange(round_up(data_end(v, f), 16), data_end(v, f + 1)) =~= v.files[f].data);
    } else {
        lemma_file_region_data(v, k - 1, f);
        lemma_data_end_mono(v, f + 1, k - 1);
        lemma_ranges_kept(
            file_region(v, k - 1) + zeros((round_up(data_end(v, k - 1), 16) - data_end(v, k - 1)) as nat),
            v.files[k - 1].data,
        );
        lemma_ranges_kept(
            file_region(v, k - 1),
            zeros((round_up(data_end(v, k - 1), 16) - data_end(v, k - 1)) as nat),
        );
    }
}

/// A file entry laid at `o` of table `t` is looked up as the entry decoded
/// there, with the name laid after it.
proof fn lemma_file_entry_lookup(t: Seq<u8>, base: int, o: int, eb: Seq<u8>, name: Seq<u8>)
    requires
        0 <= o,
        o + eb.len() <= t.len() <= usize::MAX,
        t.subrange(o, o + eb.len()) == eb,
        0x20 + name.len() <= eb.len(),
        eb.subrange(0x20, 0x20 + name.len() as int) == name,
        u32_of(eb, 28) == name.len(),
    ensures
        crate::read::romfs::file_lookup(t, base, o) == Ok::<
            (crate::raw::romfs::RomFsFileEntry, Seq<u8>),
            (usize, usize),
        >((file_entry_at(t, o), name)),
        file_entry_at(t, o).data_offset == u64_of(eb, 8),
        file_entry_at(t, o).data_size == u64_of(eb, 16),
        file_entry_at(t, o).sibling_offset == u32_of(eb, 4),
{
    lemma_words_within(t, o, eb);
    assert(u32_of(t, o + 28) == u32_of(eb, 28));
    assert(u32_of(t, o + 4) == u32_of(eb, 4));
    assert(u32_of(t, o + 8) == u32_of(eb, 8));
    assert(u32_of(t, o + 12) == u32_of(eb, 12));
    assert(u32_of(t, o + 16) == u32_of(eb, 16));
    assert(u32_of(t, o + 20) == u32_of(eb, 20));
    reveal(file_entry_at);
    let n = name.len() as int;
    assert(t.subrange(o + 0x20, o + 0x20 + n) =~= eb.subrange(0x20, 0x20 + n));
}

/// File `f`'s data lies in the image after the 0x200-byte header, at its
/// offset in the file region.
#[verifier::spinoff_prover]
#[verifier::rlimit(40)]
proof fn lemma_image_file_data(v: RomFsBuilderView, f: int)
    requires
        v.dirs.len() + 0x8_0000 <= usize::MAX,
        v.files.len() + 0x8_0000 <= usize::MAX,
        0 <= f < v.files.len(),
    ensures
        0x200 + data_end(v, f + 1) <= romfs_image(v).len(),
        romfs_image(v).subrange(0x200 + round_up(data_end(v, f), 16), 0x200 + data_end(v, f + 1))
            == v.files[f].data,
        data_end(v, f + 1) == round_up(data_end(v, f), 16) + v.files[f].data.len(),
{
    let nf = v.files.len() as int;
    lemma_image_len(v);
    lemma_image_parts(v);
    lemma_file_region_data(v, nf, f);
    lemma_data_end_mono(v, f + 1, nf);
    lemma_data_end_mono(v, f, f);
    let part = data_end(v, nf);
    let dh = dir_hash_fold(v, v.dirs.len() as int).0;
    let fh = file_hash_fold(v, nf).0;
    let dt = dir_table(v, v.dirs.len() as int);
    let ft = file_table(v, nf);
    let h = romfs_header(part, dh.len() as int, dt.len() as int, fh.len() as int, ft.len() as int);
    lemma_header_len(part, dh.len() as int, dt.len() as int, fh.len() as int, ft.len() as int);
    let r1 = file_region(v, nf);
    let zp = zeros((round_up(0x200 + part, 4) - 0x200 - part) as nat);
    let s1 = h + r1;
    let s2 = s1 + zp;
    let s3 = s2 + le32_all(dh);
    let s4 = s3 + dt;
    let s5 = s4 + le32_all(fh);
    reveal(romfs_image);
    assert(romfs_image(v) == s5 + ft);
    lemma_ranges_kept(s1, zp);
    lemma_ranges_kept(s2, le32_all(dh));
    lemma_ranges_kept(s3, dt);
    lemma_ranges_kept(s4, le32_all(fh));
    lemma_ranges_kept(s5, ft);
    let a = round_up(data_end(v, f), 16);
    assert(s1.subrange(0x200 + a, 0x200 + data_end(v, f + 1)) =~= r1.subrange(a, data_end(v, f + 1)));
}

/// Every file a RomFS build writes reads back: the reader finds, at the
/// file's entry offset in the file metadata table, an entry whose name is the
/// file's name and whose data is the file's data.
pub proof fn lemma_built_romfs_file_reads_back(v: RomFsBuilderView, f: int)
    requires
        romfs_fits(v),
        0 <= f < v.files.len(),
    ensures
        ({
            let b = romfs_image(v);
            let t = crate::read::romfs::file_table(b);
            let base = crate::read::romfs::file_table_base(b);
            &&& crate::read::romfs::file_lookup(t, base, file_offs(v)[f] as int) matches Ok((e, nb))
            &&& nb == v.files[f].name
            &&& crate::read::romfs::file_data_spec(b, e) == Ok::<Seq<u8>, crate::read::romfs::FromBytesError>(
                v.files[f].data,
            )
        }),
{
    let b = romfs_image(v);
    let nf = v.files.len() as int;
    let t = crate::read::romfs::file_table(b);
    let base = crate::read::romfs::file_table_base(b);
    assert(t == file_table(v, nf) && romfs_header_at(b).file_data_offset == 0x200) by {
        lemma_built_romfs_passes_checks(v);
    }
    let o = file_off(v, f);
    let e = file_entry_at(t, o);
    assert(file_offs(v)[f] as int == o && crate::read::romfs::file_lookup(t, base, o) == Ok::<
        (crate::raw::romfs::RomFsFileEntry, Seq<u8>),
        (usize, usize),
    >((e, v.files[f].name)) && e.data_offset == round_up(data_end(v, f), 16) && e.data_size
        == v.files[f].data.len()) by {
        lemma_file_table_len(v, nf);
        lemma_file_table_entry(v, nf, f);
        lemma_file_entry_fields(v, f);
        lemma_file_off_mono(v, f + 1, nf);
        lemma_file_off_mono(v, 0, f);
        lemma_file_entry_lookup(t, base, o, file_entry_bytes(v, f), v.files[f].name);
        lemma_image_file_data(v, f);
        lemma_data_end_mono(v, f, f);
        assert(0 <= round_up(data_end(v, f), 16) <= romfs_image(v).len());
    }
    assert(crate::read::romfs::file_data_spec(b, e) == Ok::<Seq<u8>, crate::read::romfs::FromBytesError>(
        v.files[f].data,
    )) by {
        lemma_image_file_data(v, f);
    }
}

/// In a list whose entries have distinct offsets, the entry after the one
/// at position `i` is the next in the list.
proof fn lemma_next_sibling_at(ch: Seq<usize>, offs: Seq<u32>, i: int)
    requires
        0 <= i < ch.len(),
        forall|j: int| 0 <= j < ch.len() ==> ch[j] < offs.len(),
        forall|j1: int, j2: int|
            0 <= j1 < j2 < ch.len() ==> offs[#[trigger] ch[j1] as int] != offs[#[trigger] ch[j2] as int],
    ensures
        next_sibling(ch, offs, offs[ch[i] as int]) == if i + 1 < ch.len() {
            offs[ch[i + 1] as int]
        } else {
            ROMFS_ENTRY_EMPTY
        },
    decreases ch.len(),
{
    if ch.len() >= 2 && offs[ch[0] as int] != offs[ch[i] as int] {
        let rest = ch.drop_first();
        assert forall|j1: int, j2: int|
            0 <= j1 < j2 < rest.len() implies offs[#[trigger] rest[j1] as int] != offs[#[trigger] rest[j2] as int] by {
            assert(rest[j1] == ch[j1 + 1] && rest[j2] == ch[j2 + 1]);
        }
        assert(rest[i - 1] == ch[i]);
        lemma_next_sibling_at(rest, offs, i - 1);
    }
}

/// Sorting keeps the indices: the same ones, each as often.
proof fn lemma_sort_by_key_keeps(s: Seq<usize>, key: spec_fn(usize) -> Seq<u8>)
    ensures
        sort_by_key(s, key).len() == s.len(),
        forall|x: usize| sort_by_key(s, key).contains(x) <==> s.contains(x),
        (forall|j1: int, j2: int| 0 <= j1 < j2 < s.len() ==> s[j1] != s[j2]) ==> (forall|j1: int, j2: int|
            0 <= j1 < j2 < s.len() ==> sort_by_key(s, key)[j1] != sort_by_key(s, key)[j2]),
    decreases s.len(),
{
    reveal(sort_by_key);
    if s.len() > 0 {
        let d = s.drop_last();
        lemma_sort_by_key_keeps(d, key);
        let t = sort_by_key(d, key);
        lemma_key_insert_pos_range(t, key(s.last()), key);
        let k = key_insert_pos(t, key(s.last()), key);
        let r = t.insert(k, s.last());
        assert(sort_by_key(s, key) == r);
        assert forall|x: usize| r.contains(x) <==> s.contains(x) by {
            if r.contains(x) {
                let j = choose|j: int| 0 <= j < r.len() && r[j] == x;
                if j < k {
                    assert(t[j] == x);
                    assert(t.contains(x));
                    assert(d.contains(x));
                    let m = choose|m: int| 0 <= m < d.len() && d[m] == x;
                    assert(s[m] == x);
                } else if j > k {
                    assert(t[j - 1] == x);
                    assert(t.contains(x));
                    assert(d.contains(x));
                    let m = choose|m: int| 0 <= m < d.len() && d[m] == x;
                    assert(s[m] == x);
                } else {
                    assert(s[s.len() - 1] == x);
                }
            }
            if s.contains(x) {
                let m = choose|m: int| 0 <= m < s.len() && s[m] == x;
                if m < s.len() - 1 {
                    assert(d[m] == x);
                    assert(d.contains(x));
                    assert(t.contains(x));
                    let j = choose|j: int| 0 <= j < t.len() && t[j] == x;
                    if j < k {
                        assert(r[j] == x);
                    } else {
                        assert(r[j + 1] == x);
                    }
                } else {
                    assert(r[k] == x);
                }
            }
        }
        if forall|j1: int, j2: int| 0 <= j1 < j2 < s.len() ==> s[j1] != s[j2] {
            assert forall|j1: int, j2: int| 0 <= j1 < j2 < d.len() implies d[j1] != d[j2] by {
                assert(d[j1] == s[j1] && d[j2] == s[j2]);
            }
            assert(!t.contains(s.last())) by {
                if t.contains(s.last()) {
                    assert(d.contains(s.last()));
                    let m = choose|m: int| 0 <= m < d.len() && d[m] == s.last();
                    assert(s[m] == d[m]);
                    assert(s[m] == s[s.len() - 1]);
                }
            }
            assert forall|j1: int, j2: int| 0 <= j1 < j2 < s.len() implies r[j1] != r[j2] by {
                if j2 < k {
                    assert(r[j1] == t[j1] && r[j2] == t[j2]);
                } else if j2 == k {
                    assert(r[j1] == t[j1]);
                } else if j1 < k {
                    assert(r[j1] == t[j1] && r[j2] == t[j2 - 1]);
                } else if j1 == k {
                    assert(r[j2] == t[j2 - 1]);
                } else {
                    assert(r[j1] == t[j1 - 1] && r[j2] == t[j2 - 1]);
                }
            }
        }
    }
}

/// Later file entries start after earlier ones end.
proof fn lemma_file_off_strict(v: RomFsBuilderView, j: int, k: int)
    requires
        0 <= j < k,
    ensures
        file_off(v, j) + 0x20 <= file_off(v, k),
    decreases k,
{
    lemma_file_off_mono(v, j + 1, k);
    assert(round_up(v.files[j].name.len() as int, 4) >= 0);
}

/// Distinct files have distinct entry offsets.
proof fn lemma_file_offs_distinct(v: RomFsBuilderView, x: int, y: int)
    requires
        0 <= x < v.files.len(),
        0 <= y < v.files.len(),
        x != y,
        file_off(v, v.files.len() as int) <= u32::MAX,
    ensures
        file_offs(v)[x] != file_offs(v)[y],
        file_offs(v)[x] as int == file_off(v, x),
{
    let nf = v.files.len() as int;
    lemma_file_off_mono(v, x, nf);
    lemma_file_off_mono(v, y, nf);
    lemma_file_off_mono(v, 0, x);
    lemma_file_off_mono(v, 0, y);
    if x < y {
        lemma_file_off_strict(v, x, y);
    } else {
        lemma_file_off_strict(v, y, x);
    }
}

/// The files of directory `d` in name order, as the reader sees them:
/// following the sibling chain from the entry of the `i`-th one finds the
/// `pos`-th one by its name, provided no file in between has that name.
#[verifier::spinoff_prover]
#[verifier::rlimit(40)]
proof fn lemma_file_walk(v: RomFsBuilderView, d: int, base: int, i: int, pos: int, fuel: nat)
    requires
        romfs_fits(v),
        0 <= d < v.dirs.len(),
        0 <= i <= pos < sorted_files(v, d).len(),
        forall|j: int|
            0 <= j < sorted_files(v, d).len() ==> {
                &&& (#[trigger] sorted_files(v, d)[j]) < v.files.len()
                &&& v.files[sorted_files(v, d)[j] as int].parent == d
            },
        vstd::utf8::valid_utf8(v.files[sorted_files(v, d)[pos] as int].name),
        v.files[sorted_files(v, d)[pos] as int].name.len() > 0,
        forall|j1: int, j2: int|
            0 <= j1 < j2 < sorted_files(v, d).len() ==> sorted_files(v, d)[j1] != sorted_files(v, d)[j2],
        forall|j: int|
            i <= j < pos ==> v.files[(#[trigger] sorted_files(v, d)[j]) as int].name != v.files[sorted_files(
                v,
                d,
            )[pos] as int].name,
        fuel >= pos - i + 1,
    ensures
        ({
            let ch = sorted_files(v, d);
            let t = file_table(v, v.files.len() as int);
            let target = v.files[ch[pos] as int];
            crate::read::romfs::find_file_walk(t, base, file_offs(v)[ch[i] as int], target.name, fuel) == Ok::<
                (crate::raw::romfs::RomFsFileEntry, Seq<u8>),
                OpenError,
            >((file_entry_at(t, file_off(v, ch[pos] as int)), target.name))
        }),
    decreases pos - i,
{
    let ch = sorted_files(v, d);
    let nf = v.files.len() as int;
    let t = file_table(v, nf);
    let x = ch[i] as int;
    let target = v.files[ch[pos] as int].name;
    let foffs = file_offs(v);
    lemma_file_table_len(v, nf);
    lemma_file_table_entry(v, nf, x);
    lemma_file_entry_fields(v, x);
    lemma_file_off_mono(v, x + 1, nf);
    lemma_file_off_mono(v, 0, x);
    let o = file_off(v, x);
    assert(foffs[x] as int == o);
    lemma_file_entry_lookup(t, base, o, file_entry_bytes(v, x), v.files[x].name);
    if i < pos {
        assert forall|j1: int, j2: int| 0 <= j1 < j2 < ch.len() implies foffs[#[trigger] ch[j1] as int]
            != foffs[#[trigger] ch[j2] as int] by {
            assert(ch[j1] < nf && ch[j2] < nf);
            lemma_file_offs_distinct(v, ch[j1] as int, ch[j2] as int);
        }
        assert forall|j: int| 0 <= j < ch.len() implies ch[j] < foffs.len() by {
            assert(ch[j] < nf);
        }
        lemma_next_sibling_at(ch, foffs, i);
        assert(v.files[x].name != target);
        lemma_file_walk(v, d, base, i + 1, pos, (fuel - 1) as nat);
    }
}

/// The metadata entry of directory `d` decodes to the values it was built
/// from.
#[verifier::rlimit(30)]
proof fn lemma_dir_entry_fields(v: RomFsBuilderView, d: int)
    requires
        0 <= d < v.dirs.len(),
    ensures
        dir_entry_bytes(v, d).len() == 0x18 + round_up(v.dirs[d].name.len() as int, 4),
        dir_entry_bytes(v, d).subrange(0x18, 0x18 + v.dirs[d].name.len() as int) == v.dirs[d].name,
        u32_of(dir_entry_bytes(v, d), 4) == next_sibling(
            sorted_children(v, v.dirs[d].parent as int),
            dir_offs(v),
            dir_offs(v)[d],
        ),
        u32_of(dir_entry_bytes(v, d), 8) == first_offset(sorted_children(v, d), dir_offs(v)),
        u32_of(dir_entry_bytes(v, d), 12) == first_offset(sorted_files(v, d), file_offs(v)),
        u32_of(dir_entry_bytes(v, d), 20) == v.dirs[d].name.len() as u32,
{
    let dn = v.dirs[d];
    let offs = dir_offs(v);
    let n = dn.name.len() as int;
    let x1 = offs[dn.parent as int];
    let x2 = next_sibling(sorted_children(v, dn.parent as int), offs, offs[d]);
    let x3 = first_offset(sorted_children(v, d), offs);
    let x4 = first_offset(sorted_files(v, d), file_offs(v));
    let x5 = dir_hash_fold(v, v.dirs.len() as int).1[d];
    let p1 = le32(x1);
    let p2 = p1 + le32(x2);
    let p3 = p2 + le32(x3);
    let p4 = p3 + le32(x4);
    let p5 = p4 + le32(x5);
    let p6 = p5 + le32(n as u32);
    let p7 = p6 + dn.name;
    let e = p7 + pad4(n);
    reveal(dir_entry_bytes);
    assert(dir_entry_bytes(v, d) == e);
    lemma_word_appended(p1, x2);
    lemma_word_appended(p2, x3);
    lemma_word_appended(p3, x4);
    lemma_word_appended(p5, n as u32);
    lemma_words_kept(p2, le32(x3));
    lemma_words_kept(p3, le32(x4));
    lemma_words_kept(p4, le32(x5));
    lemma_words_kept(p5, le32(n as u32));
    lemma_words_kept(p6, dn.name);
    lemma_words_kept(p7, pad4(n));
    assert(e.subrange(0x18, 0x18 + n) =~= dn.name);
}

/// Entry `d` lies in the directory table at its offset.
#[verifier::spinoff_prover]
#[verifier::rlimit(60)]
proof fn lemma_dir_table_entry(v: RomFsBuilderView, k: int, d: int)
    requires
        0 <= d < k <= v.dirs.len(),
    ensures
        dir_off(v, d + 1) == dir_off(v, d) + dir_entry_bytes(v, d).len(),
        dir_table(v, k).subrange(dir_off(v, d), dir_off(v, d + 1)) == dir_entry_bytes(v, d),
    decreases k,
{
    lemma_dir_entry_fields(v, d);
    lemma_dir_table_len(v, k - 1);
    if d == k - 1 {
        assert(dir_table(v, k).subrange(dir_off(v, d), dir_off(v, d + 1)) =~= dir_entry_bytes(v, d));
    } else {
        lemma_dir_table_entry(v, k - 1, d);
        lemma_dir_off_mono(v, d + 1, k - 1);
        lemma_dir_off_mono(v, 0, d);
        lemma_ranges_kept(dir_table(v, k - 1), dir_entry_bytes(v, k - 1));
        assert(dir_table(v, k) == dir_table(v, k - 1) + dir_entry_bytes(v, k - 1));
    }
}

/// A directory entry laid at `o` of table `t` is looked up as the entry
/// decoded there, with the name laid after it.
proof fn lemma_dir_entry_lookup(t: Seq<u8>, base: int, o: int, eb: Seq<u8>, name: Seq<u8>)
    requires
        0 <= o,
        o + eb.len() <= t.len() <= usize::MAX,
        t.subrange(o, o + eb.len()) == eb,
        0x18 + name.len() <= eb.len(),
        eb.subrange(0x18, 0x18 + name.len() as int) == name,
        u32_of(eb, 20) == name.len(),
    ensures
        crate::read::romfs::dir_lookup(t, base, o) == Ok::<
            (crate::raw::romfs::RomFsDirEntry, Seq<u8>),
            (usize, usize),
        >((dir_entry_at(t, o), name)),
        dir_entry_at(t, o).sibling_offset == u32_of(eb, 4),
        dir_entry_at(t, o).child_offset == u32_of(eb, 8),
        dir_entry_at(t, o).file_offset == u32_of(eb, 12),
{
    lemma_words_within(t, o, eb);
    assert(u32_of(t, o + 20) == u32_of(eb, 20));
    assert(u32_of(t, o + 4) == u32_of(eb, 4));
    assert(u32_of(t, o + 8) == u32_of(eb, 8));
    assert(u32_of(t, o + 12) == u32_of(eb, 12));
    reveal(dir_entry_at);
    let n = name.len() as int;
    assert(t.subrange(o + 0x18, o + 0x18 + n) =~= eb.subrange(0x18, 0x18 + n));
}

/// Later directory entries start after earlier ones end.
proof fn lemma_dir_off_strict(v: RomFsBuilderView, j: int, k: int)
    requires
        0 <= j < k,
    ensures
        dir_off(v, j) + 0x18 <= dir_off(v, k),
    decreases k,
{
    lemma_dir_off_mono(v, j + 1, k);
    assert(round_up(v.dirs[j].name.len() as int, 4) >= 0);
}

/// Distinct directories have distinct entry offsets.
proof fn lemma_dir_offs_distinct(v: RomFsBuilderView, x: int, y: int)
    requires
        0 <= x < v.dirs.len(),
        0 <= y < v.dirs.len(),
        x != y,
        dir_off(v, v.dirs.len() as int) <= u32::MAX,
    ensures
        dir_offs(v)[x] != dir_offs(v)[y],
        dir_offs(v)[x] as int == dir_off(v, x),
{
    let nd = v.dirs.len() as int;
    lemma_dir_off_mono(v, x, nd);
    lemma_dir_off_mono(v, y, nd);
    lemma_dir_off_mono(v, 0, x);
    lemma_dir_off_mono(v, 0, y);
    if x < y {
        lemma_dir_off_strict(v, x, y);
    } else {
        lemma_dir_off_strict(v, y, x);
    }
}

/// The subdirectories of directory `d` in name order, as the reader sees
/// them: following the sibling chain from the entry of the `i`-th one finds
/// the `pos`-th one by its name, provided no subdirectory in between has
/// that name.
#[verifier::spinoff_prover]
#[verifier::rlimit(40)]
proof fn lemma_dir_walk(v: RomFsBuilderView, d: int, base: int, i: int, pos: int, fuel: nat)
    requires
        romfs_fits(v),
        0 <= d < v.dirs.len(),
        0 <= i <= pos < sorted_children(v, d).len(),
        forall|j: int|
            0 <= j < sorted_children(v, d).len() ==> {
                &&& (#[trigger] sorted_children(v, d)[j]) < v.dirs.len()
                &&& v.dirs[sorted_children(v, d)[j] as int].parent == d
            },
        vstd::utf8::valid_utf8(v.dirs[sorted_children(v, d)[pos] as int].name),
        v.dirs[sorted_children(v, d)[pos] as int].name.len() > 0,
        forall|j1: int, j2: int|
            0 <= j1 < j2 < sorted_children(v, d).len() ==> sorted_children(v, d)[j1] != sorted_children(v, d)[j2],
        forall|j: int|
            i <= j < pos ==> v.dirs[(#[trigger] sorted_children(v, d)[j]) as int].name != v.dirs[sorted_children(
                v,
                d,
            )[pos] as int].name,
        fuel >= pos - i + 1,
    ensures
        ({
            let ch = sorted_children(v, d);
            let t = dir_table(v, v.dirs.len() as int);
            let target = v.dirs[ch[pos] as int];
            crate::read::romfs::find_dir_walk(t, base, dir_offs(v)[ch[i] as int], target.name, fuel) == Ok::<
                (crate::raw::romfs::RomFsDirEntry, Seq<u8>),
                OpenError,
            >((dir_entry_at(t, dir_off(v, ch[pos] as int)), target.name))
        }),
    decreases pos - i,
{
    let ch = sorted_children(v, d);
    let nd = v.dirs.len() as int;
    let t = dir_table(v, nd);
    let x = ch[i] as int;
    let target = v.dirs[ch[pos] as int].name;
    let offs = dir_offs(v);
    lemma_dir_table_len(v, nd);
    lemma_dir_table_entry(v, nd, x);
    lemma_dir_entry_fields(v, x);
    lemma_dir_off_mono(v, x + 1, nd);
    lemma_dir_off_mono(v, 0, x);
    let o = dir_off(v, x);
    assert(offs[x] as int == o);
    lemma_dir_entry_lookup(t, base, o, dir_entry_bytes(v, x), v.dirs[x].name);
    if i < pos {
        assert forall|j1: int, j2: int| 0 <= j1 < j2 < ch.len() implies offs[#[trigger] ch[j1] as int]
            != offs[#[trigger] ch[j2] as int] by {
            assert(ch[j1] < nd && ch[j2] < nd);
            lemma_dir_offs_distinct(v, ch[j1] as int, ch[j2] as int);
        }
        assert forall|j: int| 0 <= j < ch.len() implies ch[j] < offs.len() by {
            assert(ch[j] < nd);
        }
        lemma_next_sibling_at(ch, offs, i);
        assert(v.dirs[x].name != target);
        lemma_dir_walk(v, d, base, i + 1, pos, (fuel - 1) as nat);
    }
}

/// A list of distinct indices below `n` has at most `n` of them.
proof fn lemma_distinct_indices_len(s: Seq<usize>, n: int)
    requires
        0 <= n,
        forall|j: int| 0 <= j < s.len() ==> s[j] < n,
        forall|j1: int, j2: int| 0 <= j1 < j2 < s.len() ==> s[j1] != s[j2],
    ensures
        s.len() <= n,
{
    let si = s.map_values(|x: usize| x as int);
    assert(si.no_duplicates()) by {
        assert forall|i: int, j: int| 0 <= i < si.len() && 0 <= j < si.len() && i != j implies si[i] != si[j] by {
            if i < j {
                assert(s[i] != s[j]);
            } else {
                assert(s[j] != s[i]);
            }
        }
    }
    si.unique_seq_to_set();
    vstd::set_lib::lemma_int_range(0, n);
    assert(si.to_set().subset_of(vstd::set_lib::set_int_range(0, n))) by {
        assert forall|x: int| si.to_set().contains(x) implies vstd::set_lib::set_int_range(0, n).contains(x) by {
            let j = choose|j: int| 0 <= j < si.len() && si[j] == x;
            assert(s[j] < n);
        }
    }
    vstd::set_lib::lemma_len_subset(si.to_set(), vstd::set_lib::set_int_range(0, n));
}

/// Each directory entry takes at least 0x18 bytes, each file entry 0x20.
proof fn lemma_entry_counts(v: RomFsBuilderView, k: int)
    requires
        0 <= k,
    ensures
        0x18 * k <= dir_off(v, k),
        0x20 * k <= file_off(v, k),
    decreases k,
{
    if k > 0 {
        lemma_entry_counts(v, k - 1);
        lemma_dir_off_strict(v, k - 1, k);
        lemma_file_off_strict(v, k - 1, k);
    }
}

/// Whether directory `d` is laid out as a builder makes it: its
/// subdirectories and files name it as their parent, and no two of its
/// subdirectories, nor two of its files, share a name.
pub open spec fn dir_consistent(v: RomFsBuilderView, d: int) -> bool {
    let dn = v.dirs[d];
    &&& forall|k: int| 0 <= k < dn.children.len() ==> v.dirs[#[trigger] dn.children[k] as int].parent == d
    &&& forall|k: int| 0 <= k < dn.files.len() ==> v.files[#[trigger] dn.files[k] as int].parent == d
    &&& forall|k1: int, k2: int|
        0 <= k1 < k2 < dn.children.len() ==> v.dirs[#[trigger] dn.children[k1] as int].name != v.dirs[#[trigger] dn.children[k2] as int].name
    &&& forall|k1: int, k2: int|
        0 <= k1 < k2 < dn.files.len() ==> v.files[#[trigger] dn.files[k1] as int].name != v.files[#[trigger] dn.files[k2] as int].name
}

/// File `k` of directory `d` is found by its name along the chain that
/// starts at the directory's first file.
#[verifier::spinoff_prover]
#[verifier::rlimit(40)]
proof fn lemma_finds_file_in(v: RomFsBuilderView, d: int, k: int, base: int)
    requires
        romfs_fits(v),
        tree_ok(v),
        0 <= d < v.dirs.len(),
        dir_consistent(v, d),
        0 <= k < v.dirs[d].files.len(),
        vstd::utf8::valid_utf8(v.files[v.dirs[d].files[k] as int].name),
        v.files[v.dirs[d].files[k] as int].name.len() > 0,
    ensures
        ({
            let x = v.dirs[d].files[k] as int;
            let t = file_table(v, v.files.len() as int);
            crate::read::romfs::find_file_walk(
                t,
                base,
                first_offset(sorted_files(v, d), file_offs(v)),
                v.files[x].name,
                (t.len() + 1) as nat,
            ) == Ok::<(crate::raw::romfs::RomFsFileEntry, Seq<u8>), OpenError>(
                (file_entry_at(t, file_off(v, x)), v.files[x].name),
            )
        }),
{
    let nf = v.files.len() as int;
    let s = v.dirs[d].files;
    let x = s[k];
    let key = file_key(v);
    let ch = sorted_files(v, d);
    assert forall|k1: int, k2: int| 0 <= k1 < k2 < s.len() implies s[k1] != s[k2] by {
        assert(v.files[s[k1] as int].name != v.files[s[k2] as int].name);
    }
    lemma_sort_by_key_keeps(s, key);
    lemma_sort_by_key_bound(s, key, nf);
    assert(s.contains(x));
    assert(ch.contains(x));
    let pos = choose|pos: int| 0 <= pos < ch.len() && ch[pos] == x;
    assert forall|j: int| 0 <= j < ch.len() implies (#[trigger] ch[j]) < nf && v.files[ch[j] as int].parent
        == d by {
        assert(ch.contains(ch[j]));
        assert(s.contains(ch[j]));
        let m = choose|m: int| 0 <= m < s.len() && s[m] == ch[j];
        assert(v.files[s[m] as int].parent == d);
    }
    assert forall|j: int| 0 <= j < pos implies v.files[(#[trigger] ch[j]) as int].name != v.files[ch[pos] as int].name by {
        assert(ch[j] != ch[pos]);
        assert(ch.contains(ch[j]));
        assert(s.contains(ch[j]));
        let m = choose|m: int| 0 <= m < s.len() && s[m] == ch[j];
        if m < k {
            assert(v.files[s[m] as int].name != v.files[s[k] as int].name);
        } else {
            assert(m != k);
            assert(v.files[s[k] as int].name != v.files[s[m] as int].name);
        }
    }
    lemma_distinct_indices_len(ch, nf);
    lemma_entry_counts(v, nf);
    lemma_file_table_len(v, nf);
    lemma_file_walk(v, d, base, 0, pos, (file_table(v, nf).len() + 1) as nat);
}

/// Subdirectory `k` of directory `d` is found by its name along the chain
/// that starts at the directory's first subdirectory.
#[verifier::spinoff_prover]
#[verifier::rlimit(40)]
proof fn lemma_finds_dir_in(v: RomFsBuilderView, d: int, k: int, base: int)
    requires
        romfs_fits(v),
        tree_ok(v),
        0 <= d < v.dirs.len(),
        dir_consistent(v, d),
        0 <= k < v.dirs[d].children.len(),
        vstd::utf8::valid_utf8(v.dirs[v.dirs[d].children[k] as int].name),
        v.dirs[v.dirs[d].children[k] as int].name.len() > 0,
    ensures
        ({
            let x = v.dirs[d].children[k] as int;
            let t = dir_table(v, v.dirs.len() as int);
            crate::read::romfs::find_dir_walk(
                t,
                base,
                first_offset(sorted_children(v, d), dir_offs(v)),
                v.dirs[x].name,
                (t.len() + 1) as nat,
            ) == Ok::<(crate::raw::romfs::RomFsDirEntry, Seq<u8>), OpenError>(
                (dir_entry_at(t, dir_off(v, x)), v.dirs[x].name),
            )
        }),
{
    let nd = v.dirs.len() as int;
    let s = v.dirs[d].children;
    let x = s[k];
    let key = dir_key(v);
    let ch = sorted_children(v, d);
    assert forall|k1: int, k2: int| 0 <= k1 < k2 < s.len() implies s[k1] != s[k2] by {
        assert(v.dirs[s[k1] as int].name != v.dirs[s[k2] as int].name);
    }
    lemma_sort_by_key_keeps(s, key);
    lemma_sort_by_key_bound(s, key, nd);
    assert(s.contains(x));
    assert(ch.contains(x));
    let pos = choose|pos: int| 0 <= pos < ch.len() && ch[pos] == x;
    assert forall|j: int| 0 <= j < ch.len() implies (#[trigger] ch[j]) < nd && v.dirs[ch[j] as int].parent
        == d by {
        assert(ch.contains(ch[j]));
        assert(s.contains(ch[j]));
        let m = choose|m: int| 0 <= m < s.len() && s[m] == ch[j];
        assert(v.dirs[s[m] as int].parent == d);
    }
    assert forall|j: int| 0 <= j < pos implies v.dirs[(#[trigger] ch[j]) as int].name != v.dirs[ch[pos] as int].name by {
        assert(ch[j] != ch[pos]);
        assert(ch.contains(ch[j]));
        assert(s.contains(ch[j]));
        let m = choose|m: int| 0 <= m < s.len() && s[m] == ch[j];
        if m < k {
            assert(v.dirs[s[m] as int].name != v.dirs[s[k] as int].name);
        } else {
            assert(m != k);
            assert(v.dirs[s[k] as int].name != v.dirs[s[m] as int].name);
        }
    }
    lemma_distinct_indices_len(ch, nd);
    lemma_entry_counts(v, nd);
    lemma_dir_table_len(v, nd);
    lemma_dir_walk(v, d, base, 0, pos, (dir_table(v, nd).len() + 1) as nat);
}

/// The path naming `comps` one below the other, joined by `/`.
pub open spec fn path_of(comps: Seq<Seq<u8>>) -> Seq<u8>
    decreases comps.len(),
{
    if comps.len() == 0 {
        Seq::empty()
    } else if comps.len() == 1 {
        comps[0]
    } else {
        comps[0] + seq![0x2Fu8] + path_of(comps.drop_first())
    }
}

/// Whether `c` can stand as one component of a path: non-empty UTF-8
/// without a `/`.
pub open spec fn path_component(c: Seq<u8>) -> bool {
    &&& c.len() > 0
    &&& vstd::utf8::valid_utf8(c)
    &&& forall|j: int| 0 <= j < c.len() ==> c[j] != 0x2F
}

/// The subdirectory found is one of those searched, with that name.
proof fn lemma_find_child_named(v: RomFsBuilderView, ch: Seq<usize>, name: Seq<u8>)
    ensures
        find_child(v, ch, name) matches Some(c) ==> exists|j: int|
            0 <= j < ch.len() && ch[j] == c && v.dirs[c as int].name == name,
    decreases ch.len(),
{
    if ch.len() > 0 && v.dirs[ch[0] as int].name != name {
        lemma_find_child_named(v, ch.drop_first(), name);
        if find_child(v, ch, name) is Some {
            let c = find_child(v, ch, name)->Some_0;
            let t = ch.drop_first();
            let j = choose|j: int| 0 <= j < t.len() && t[j] == c && v.dirs[c as int].name == name;
            assert(ch[j + 1] == c);
        }
    }
}

/// The reader's entry of directory `d` in a built image: where it is, and
/// where its chains of subdirectories and files start.
proof fn lemma_dir_entry_offsets(v: RomFsBuilderView, d: int, base: int)
    requires
        romfs_fits(v),
        0 <= d < v.dirs.len(),
    ensures
        ({
            let t = dir_table(v, v.dirs.len() as int);
            let e = dir_entry_at(t, dir_off(v, d));
            &&& crate::read::romfs::dir_lookup(t, base, dir_off(v, d)) == Ok::<
                (crate::raw::romfs::RomFsDirEntry, Seq<u8>),
                (usize, usize),
            >((e, v.dirs[d].name))
            &&& e.child_offset == first_offset(sorted_children(v, d), dir_offs(v))
            &&& e.file_offset == first_offset(sorted_files(v, d), file_offs(v))
        }),
{
    let nd = v.dirs.len() as int;
    let t = dir_table(v, nd);
    lemma_dir_table_len(v, nd);
    lemma_dir_table_entry(v, nd, d);
    lemma_dir_entry_fields(v, d);
    lemma_dir_off_mono(v, d + 1, nd);
    lemma_dir_off_mono(v, 0, d);
    lemma_dir_entry_lookup(t, base, dir_off(v, d), dir_entry_bytes(v, d), v.dirs[d].name);
}

/// Opening a path from directory `d` of a built image: every component
/// but the last names a subdirectory on the way, the last a file of the
/// directory reached; the reader finds that file's entry.
#[verifier::spinoff_prover]
#[verifier::rlimit(40)]
proof fn lemma_open_from_built(v: RomFsBuilderView, b: Seq<u8>, d: int, comps: Seq<Seq<u8>>, k: int)
    requires
        romfs_fits(v),
        tree_ok(v),
        forall|dd: int| 0 <= dd < v.dirs.len() ==> #[trigger] dir_consistent(v, dd),
        0 <= d < v.dirs.len(),
        crate::read::romfs::dir_table(b) == dir_table(v, v.dirs.len() as int),
        crate::read::romfs::file_table(b) == file_table(v, v.files.len() as int),
        comps.len() >= 1,
        forall|i: int| 0 <= i < comps.len() ==> path_component(#[trigger] comps[i]),
        walk(v, d as usize, comps.drop_last()) is Some,
        0 <= k < v.dirs[walk(v, d as usize, comps.drop_last())->Some_0 as int].files.len(),
        v.files[v.dirs[walk(v, d as usize, comps.drop_last())->Some_0 as int].files[k] as int].name
            == comps.last(),
    ensures
        crate::read::romfs::open_from(
            b,
            dir_entry_at(dir_table(v, v.dirs.len() as int), dir_off(v, d)),
            path_of(comps),
        ) == Ok::<(crate::raw::romfs::RomFsFileEntry, Seq<u8>), OpenError>(
            (
                file_entry_at(
                    file_table(v, v.files.len() as int),
                    file_off(
                        v,
                        v.dirs[walk(v, d as usize, comps.drop_last())->Some_0 as int].files[k] as int,
                    ),
                ),
                comps.last(),
            ),
        ),
    decreases comps.len(),
{
    let nd = v.dirs.len() as int;
    let dt = dir_table(v, nd);
    let dir = dir_entry_at(dt, dir_off(v, d));
    let p = path_of(comps);
    let c0 = comps[0];
    assert(path_component(c0));
    lemma_dir_entry_offsets(v, d, crate::read::romfs::dir_table_base(b));
    if comps.len() == 1 {
        assert(p == c0);
        lemma_first_slash_of(p, p.len() as int);
        assert(comps.drop_last() =~= Seq::<Seq<u8>>::empty());
        assert(dir_consistent(v, d));
        lemma_finds_file_in(v, d, k, crate::read::romfs::file_table_base(b));
    } else {
        let rest = comps.drop_first();
        let n0 = c0.len() as int;
        assert(p == c0 + seq![0x2Fu8] + path_of(rest));
        assert forall|j: int| 0 <= j < n0 implies p[j] != 0x2F by {
            assert(p[j] == c0[j]);
        }
        lemma_first_slash_of(p, n0);
        assert(p.take(n0) =~= c0);
        assert(p.skip(n0 + 1) =~= path_of(rest));
        let front = comps.drop_last();
        assert(front[0] == c0);
        let c = find_child(v, v.dirs[d].children, c0)->Some_0;
        lemma_find_child_named(v, v.dirs[d].children, c0);
        let jc = choose|jc: int|
            0 <= jc < v.dirs[d].children.len() && v.dirs[d].children[jc] == c && v.dirs[c as int].name == c0;
        assert(dir_consistent(v, d));
        lemma_finds_dir_in(v, d, jc, crate::read::romfs::dir_table_base(b));
        assert(front.drop_first() =~= rest.drop_last());
        assert forall|i: int| 0 <= i < rest.len() implies path_component(#[trigger] rest[i]) by {
            assert(rest[i] == comps[i + 1]);
        }
        assert(rest.last() == comps.last());
        lemma_open_from_built(v, b, c as int, rest, k);
    }
}

/// A walk from an existing directory ends at an existing directory.
proof fn lemma_walk_bound(v: RomFsBuilderView, d: usize, comps: Seq<Seq<u8>>)
    requires
        tree_ok(v),
        d < v.dirs.len(),
    ensures
        walk(v, d, comps) matches Some(e) ==> e < v.dirs.len(),
    decreases comps.len(),
{
    if comps.len() > 0 {
        lemma_find_child_in(v, v.dirs[d as int].children, comps[0]);
        if let Some(c) = find_child(v, v.dirs[d as int].children, comps[0]) {
            let j = choose|j: int| 0 <= j < v.dirs[d as int].children.len() && v.dirs[d as int].children[j] == c;
            assert(c < v.dirs.len());
            lemma_walk_bound(v, c, comps.drop_first());
        }
    }
}

/// Whether every directory of the tree is laid out as a builder makes it
/// (see [`dir_consistent`]).
pub open spec fn tree_consistent(v: RomFsBuilderView) -> bool {
    forall|d: int| 0 <= d < v.dirs.len() ==> #[trigger] dir_consistent(v, d)
}

/// A RomFS build opens back: for a file reached from the root through the
/// subdirectories `comps` names (all but the last) and named by the last,
/// opening `/` followed by the components joined with `/` in the built
/// image finds an entry with the file's name whose data is the file's data.
pub proof fn lemma_built_romfs_opens_file(v: RomFsBuilderView, comps: Seq<Seq<u8>>, k: int)
    requires
        romfs_fits(v),
        tree_ok(v),
        tree_consistent(v),
        comps.len() >= 1,
        forall|i: int| 0 <= i < comps.len() ==> path_component(#[trigger] comps[i]),
        walk(v, 0, comps.drop_last()) is Some,
        0 <= k < v.dirs[walk(v, 0, comps.drop_last())->Some_0 as int].files.len(),
        v.files[v.dirs[walk(v, 0, comps.drop_last())->Some_0 as int].files[k] as int].name == comps.last(),
    ensures
        ({
            let b = romfs_image(v);
            let x = v.dirs[walk(v, 0, comps.drop_last())->Some_0 as int].files[k] as int;
            &&& crate::read::romfs::open_spec(b, seq![0x2Fu8] + path_of(comps)) matches Ok((e, nb))
            &&& nb == v.files[x].name
            &&& crate::read::romfs::file_data_spec(b, e) == Ok::<Seq<u8>, crate::read::romfs::FromBytesError>(
                v.files[x].data,
            )
        }),
{
    let b = romfs_image(v);
    let nd = v.dirs.len() as int;
    let nf = v.files.len() as int;
    let e = walk(v, 0, comps.drop_last())->Some_0 as int;
    assert(crate::read::romfs::dir_table(b) == dir_table(v, nd) && crate::read::romfs::file_table(b)
        == file_table(v, nf)) by {
        lemma_built_romfs_passes_checks(v);
    }
    let p = path_of(comps);
    let c0 = comps[0];
    assert(path_component(c0));
    assert(p.len() > 0 && p[0] == c0[0]) by {
        if comps.len() > 1 {
            assert(p == c0 + seq![0x2Fu8] + path_of(comps.drop_first()));
        }
    }
    let path = seq![0x2Fu8] + p;
    assert(path.drop_first() =~= p);
    assert(crate::read::romfs::trim_slashes(p) == p);
    assert(crate::read::romfs::trim_slashes(path) == crate::read::romfs::trim_slashes(path.drop_first()));
    lemma_dir_entry_offsets(v, 0, crate::read::romfs::dir_table_base(b));
    assert(dir_off(v, 0) == 0);
    lemma_open_from_built(v, b, 0, comps, k);
    // The entry found is the one whose data reads back.
    let x = v.dirs[e].files[k] as int;
    lemma_walk_bound(v, 0, comps.drop_last());
    assert(x < nf);
    lemma_file_off_mono(v, x, nf);
    lemma_file_off_mono(v, 0, x);
    assert(file_offs(v)[x] as int == file_off(v, x));
    lemma_built_romfs_file_reads_back(v, x);
}

/// No subdirectory searched has the name when none is found.
proof fn lemma_find_child_none(v: RomFsBuilderView, ch: Seq<usize>, name: Seq<u8>)
    ensures
        find_child(v, ch, name) is None ==> forall|j: int| 0 <= j < ch.len() ==> v.dirs[#[trigger] ch[j] as int].name != name,
    decreases ch.len(),
{
    if ch.len() > 0 && v.dirs[ch[0] as int].name != name {
        lemma_find_child_none(v, ch.drop_first(), name);
        if find_child(v, ch, name) is None {
            assert forall|j: int| 0 <= j < ch.len() implies v.dirs[#[trigger] ch[j] as int].name != name by {
                if j > 0 {
                    assert(ch[j] == ch.drop_first()[j - 1]);
                }
            }
        }
    }
}

/// A new subdirectory under a name none of its siblings has keeps the tree
/// as a builder makes it.
#[verifier::spinoff_prover]
#[verifier::rlimit(30)]
pub proof fn lemma_with_new_dir_consistent(v: RomFsBuilderView, d: usize, name: Seq<u8>)
    requires
        tree_ok(v),
        tree_consistent(v),
        d < v.dirs.len(),
        v.dirs.len() < usize::MAX,
        forall|j: int|
            0 <= j < v.dirs[d as int].children.len() ==> v.dirs[#[trigger] v.dirs[d as int].children[j] as int].name
                != name,
    ensures
        tree_consistent(with_new_dir(v, d, name)),
{
    let w = with_new_dir(v, d, name);
    let n = v.dirs.len() as usize;
    assert forall|dd: int| 0 <= dd < w.dirs.len() implies #[trigger] dir_consistent(w, dd) by {
        if dd < v.dirs.len() {
            assert(dir_consistent(v, dd));
            let vd = v.dirs[dd];
            let wd = w.dirs[dd];
            assert forall|k: int| 0 <= k < vd.children.len() implies (#[trigger] vd.children[k]) < v.dirs.len() by {
                assert(v.dirs[dd].children[k] < v.dirs.len());
            }
            if dd == d {
                assert(wd.children == vd.children.push(n));
                assert forall|k: int| 0 <= k < wd.children.len() implies w.dirs[#[trigger] wd.children[k] as int].parent == dd by {
                    if k < vd.children.len() {
                        let c = vd.children[k];
                        assert(wd.children[k] == c);
                        assert(c < v.dirs.len());
                        assert(v.dirs[c as int].parent == dd);
                        assert(w.dirs[c as int].parent == v.dirs[c as int].parent);
                    } else {
                        assert(wd.children[k] == n);
                        assert(w.dirs[n as int].parent == d);
                    }
                }
                assert forall|k1: int, k2: int| 0 <= k1 < k2 < wd.children.len() implies w.dirs[#[trigger] wd.children[k1] as int].name
                    != w.dirs[#[trigger] wd.children[k2] as int].name by {
                    let c1 = vd.children[k1];
                    assert(wd.children[k1] == c1);
                    assert(c1 < v.dirs.len());
                    assert(w.dirs[c1 as int].name == v.dirs[c1 as int].name);
                    if k2 < vd.children.len() {
                        let c2 = vd.children[k2];
                        assert(wd.children[k2] == c2);
                        assert(c2 < v.dirs.len());
                        assert(w.dirs[c2 as int].name == v.dirs[c2 as int].name);
                        assert(v.dirs[c1 as int].name != v.dirs[c2 as int].name);
                    } else {
                        assert(wd.children[k2] == n);
                        assert(w.dirs[n as int].name == name);
                        assert(v.dirs[c1 as int].name != name);
                    }
                }
            } else {
                assert(wd == vd);
            }
        } else {
            assert(w.dirs[dd].children.len() == 0 && w.dirs[dd].files.len() == 0);
        }
    }
}

/// Navigating keeps the tree consistent.
proof fn lemma_navigate_consistent(v: RomFsBuilderView, d: usize, comps: Seq<Seq<u8>>)
    requires
        tree_ok(v),
        tree_consistent(v),
        d < v.dirs.len(),
        v.dirs.len() + comps.len() <= usize::MAX,
    ensures
        tree_consistent(navigate(v, d, comps).0),
    decreases comps.len(),
{
    if comps.len() > 0 {
        let ch = v.dirs[d as int].children;
        match find_child(v, ch, comps[0]) {
            Some(c) => {
                lemma_find_child_in(v, ch, comps[0]);
                lemma_navigate_consistent(v, c, comps.drop_first());
            },
            None => {
                let n = v.dirs.len() as usize;
                lemma_with_new_dir_ok(v, d, comps[0]);
                lemma_find_child_none(v, ch, comps[0]);
                lemma_with_new_dir_consistent(v, d, comps[0]);
                lemma_navigate_consistent(with_new_dir(v, d, comps[0]), n, comps.drop_first());
            },
        }
    }
}

/// `v` with a new file `name` holding `data` in directory `d`.
pub open spec fn with_new_file(v: RomFsBuilderView, d: usize, name: Seq<u8>, data: Seq<u8>) -> RomFsBuilderView {
    let n = v.files.len() as usize;
    let pd = v.dirs[d as int];
    RomFsBuilderView {
        dirs: v.dirs.update(d as int, RomFsDirNode { files: pd.files.push(n), ..pd }),
        files: v.files.push(RomFsFileNode { name, data, parent: d }),
    }
}

/// A new file under a name no other file of its directory has keeps the
/// tree as a builder makes it.
#[verifier::spinoff_prover]
#[verifier::rlimit(30)]
pub proof fn lemma_with_new_file_consistent(v: RomFsBuilderView, d: usize, name: Seq<u8>, data: Seq<u8>)
    requires
        tree_ok(v),
        tree_consistent(v),
        d < v.dirs.len(),
        v.files.len() < usize::MAX,
        !has_file(v, d, name),
    ensures
        tree_consistent(with_new_file(v, d, name, data)),
{
    let r = with_new_file(v, d, name, data);
    let n = v.files.len() as usize;
    assert forall|dd: int| 0 <= dd < r.dirs.len() implies #[trigger] dir_consistent(r, dd) by {
        assert(dir_consistent(v, dd));
        let vd = v.dirs[dd];
        let rd = r.dirs[dd];
        assert forall|k: int| 0 <= k < vd.files.len() implies (#[trigger] vd.files[k]) < v.files.len() by {
            assert(v.dirs[dd].files[k] < v.files.len());
        }
        if dd == d as int {
            assert(rd.files == vd.files.push(n));
            assert forall|k: int| 0 <= k < rd.files.len() implies r.files[#[trigger] rd.files[k] as int].parent == dd by {
                if k < vd.files.len() {
                    let x = vd.files[k];
                    assert(rd.files[k] == x);
                    assert(x < v.files.len());
                    assert(v.files[x as int].parent == dd);
                    assert(r.files[x as int] == v.files[x as int]);
                } else {
                    assert(rd.files[k] == n);
                    assert(r.files[n as int].parent == d);
                }
            }
            assert forall|k1: int, k2: int| 0 <= k1 < k2 < rd.files.len() implies r.files[#[trigger] rd.files[k1] as int].name
                != r.files[#[trigger] rd.files[k2] as int].name by {
                let x1 = vd.files[k1];
                assert(rd.files[k1] == x1);
                assert(x1 < v.files.len());
                assert(r.files[x1 as int] == v.files[x1 as int]);
                if k2 < vd.files.len() {
                    let x2 = vd.files[k2];
                    assert(rd.files[k2] == x2);
                    assert(x2 < v.files.len());
                    assert(r.files[x2 as int] == v.files[x2 as int]);
                    assert(v.files[x1 as int].name != v.files[x2 as int].name);
                } else {
                    assert(rd.files[k2] == n);
                    assert(r.files[n as int].name == name);
                    assert(v.files[x1 as int].name != name) by {
                        if v.files[x1 as int].name == name {
                            assert(has_file(v, d, name));
                        }
                    }
                }
            }
        } else {
            assert(rd == vd);
        }
        assert forall|k: int| 0 <= k < rd.children.len() implies r.dirs[#[trigger] rd.children[k] as int].parent == dd by {
            assert(rd.children[k] == vd.children[k]);
            assert(v.dirs[vd.children[k] as int].parent == dd);
        }
        assert forall|k1: int, k2: int| 0 <= k1 < k2 < rd.children.len() implies r.dirs[#[trigger] rd.children[k1] as int].name
            != r.dirs[#[trigger] rd.children[k2] as int].name by {
            assert(rd.children[k1] == vd.children[k1]);
            assert(rd.children[k2] == vd.children[k2]);
            assert(v.dirs[vd.children[k1] as int].name != v.dirs[vd.children[k2] as int].name);
        }
    }
}

/// Adding a file keeps the tree as a builder makes it: every directory's
/// entries name it as their parent, and no two subdirectories, nor two
/// files, of one directory share a name.
pub proof fn lemma_add_file_keeps_consistent(v: RomFsBuilderView, p: Seq<u8>, data: Seq<u8>)
    requires
        tree_ok(v),
        tree_consistent(v),
        v.dirs.len() + p.len() <= usize::MAX,
        v.files.len() < usize::MAX,
        add_file_spec(v, p, data) is Ok,
    ensures
        tree_consistent(add_file_spec(v, p, data)->Ok_0),
{
    let comps = components(p.skip(1));
    let dcomps = comps.drop_last();
    lemma_components_len(p.skip(1));
    let (w, d) = navigate(v, 0, dcomps);
    lemma_navigate_walk(v, 0, dcomps);
    lemma_navigate_consistent(v, 0, dcomps);
    assert(add_file_spec(v, p, data)->Ok_0 == with_new_file(w, d, comps.last(), data));
    lemma_with_new_file_consistent(w, d, comps.last(), data);
}

/// Splitting the joined components at `/` gives them back.
proof fn lemma_components_of_path(comps: Seq<Seq<u8>>)
    requires
        comps.len() >= 1,
        forall|i: int| 0 <= i < comps.len() ==> path_component(#[trigger] comps[i]),
    ensures
        components(path_of(comps)) == comps,
    decreases comps.len(),
{
    let p = path_of(comps);
    let c0 = comps[0];
    assert(path_component(c0));
    if comps.len() == 1 {
        lemma_first_slash_of(p, p.len() as int);
        assert(comps =~= seq![c0]);
    } else {
        let rest = comps.drop_first();
        let n0 = c0.len() as int;
        assert(p == c0 + seq![0x2Fu8] + path_of(rest));
        assert forall|j: int| 0 <= j < n0 implies p[j] != 0x2F by {
            assert(p[j] == c0[j]);
        }
        lemma_first_slash_of(p, n0);
        assert(p.take(n0) =~= c0);
        assert(p.skip(n0 + 1) =~= path_of(rest));
        assert forall|i: int| 0 <= i < rest.len() implies path_component(#[trigger] rest[i]) by {
            assert(rest[i] == comps[i + 1]);
        }
        lemma_components_of_path(rest);
        assert(comps =~= seq![c0] + rest);
    }
}

/// What a RomFS build gives back of a write: after adding `data` at the
/// path `/` followed by the components `comps` joined with `/` to a tree as
/// a builder makes it, the built image opens that path to an entry with the
/// last component as its name and `data` as its contents.
#[verifier::spinoff_prover]
#[verifier::rlimit(40)]
pub proof fn lemma_added_file_opens(v: RomFsBuilderView, comps: Seq<Seq<u8>>, data: Seq<u8>)
    requires
        tree_ok(v),
        tree_consistent(v),
        comps.len() >= 1,
        forall|i: int| 0 <= i < comps.len() ==> path_component(#[trigger] comps[i]),
        v.dirs.len() + path_of(comps).len() + 1 <= usize::MAX,
        v.files.len() < usize::MAX,
        add_file_spec(v, seq![0x2Fu8] + path_of(comps), data) is Ok,
        romfs_fits(add_file_spec(v, seq![0x2Fu8] + path_of(comps), data)->Ok_0),
    ensures
        ({
            let path = seq![0x2Fu8] + path_of(comps);
            let b = romfs_image(add_file_spec(v, path, data)->Ok_0);
            &&& crate::read::romfs::open_spec(b, path) matches Ok((e, nb))
            &&& nb == comps.last()
            &&& crate::read::romfs::file_data_spec(b, e) == Ok::<Seq<u8>, crate::read::romfs::FromBytesError>(data)
        }),
{
    let path = seq![0x2Fu8] + path_of(comps);
    assert(path.skip(1) =~= path_of(comps));
    lemma_components_of_path(comps);
    lemma_components_len(path_of(comps));
    let dcomps = comps.drop_last();
    let (w0, d) = navigate(v, 0, dcomps);
    lemma_navigate_walk(v, 0, dcomps);
    lemma_navigate_consistent(v, 0, dcomps);
    lemma_add_file_keeps_consistent(v, path, data);
    let w = add_file_spec(v, path, data)->Ok_0;
    let n = w0.files.len() as usize;
    let k = w0.dirs[d as int].files.len() as int;
    assert(w.dirs.len() == w0.dirs.len());
    assert forall|i: int| 0 <= i < w0.dirs.len() implies (#[trigger] w.dirs[i]).name == w0.dirs[i].name
        && w.dirs[i].children == w0.dirs[i].children by {}
    lemma_walk_same_shape(w0, w, 0, dcomps);
    assert(walk(w, 0, dcomps) == Some(d));
    assert(tree_ok(w)) by {
        assert forall|e: int| 0 <= e < w.dirs.len() implies {
            &&& (#[trigger] w.dirs[e]).parent < w.dirs.len()
            &&& forall|kk: int| 0 <= kk < w.dirs[e].children.len() ==> w.dirs[e].children[kk] < w.dirs.len()
            &&& forall|kk: int| 0 <= kk < w.dirs[e].files.len() ==> w.dirs[e].files[kk] < w.files.len()
        } by {
            assert(w0.dirs[e].parent < w0.dirs.len());
            if e == d as int {
                assert forall|kk: int| 0 <= kk < w.dirs[e].files.len() implies w.dirs[e].files[kk] < w.files.len() by {
                    if kk < k {
                        assert(w.dirs[e].files[kk] == w0.dirs[e].files[kk]);
                    }
                }
            }
        }
        assert forall|f: int| 0 <= f < w.files.len() implies (#[trigger] w.files[f]).parent < w.dirs.len() by {
            if f < w0.files.len() {
                assert(w.files[f] == w0.files[f]);
            }
        }
    }
    assert(w.dirs[d as int].files[k] == n);
    assert(w.files[n as int].name == comps.last());
    assert(w.files[n as int].data == data);
    lemma_built_romfs_opens_file(w, comps, k);
}

} // verus!
