//! PFS0 (partition filesystem) builder.
//!
//! A PFS0 image is a 0x10-byte header, a table of 0x18-byte file entries, a
//! string table of null-terminated names padded to a multiple of 0x20, and
//! the file data, concatenated. Entries are sorted by name.

use vstd::prelude::*;

use crate::bytes::{
    le32, le64, lemma_ranges_kept, lemma_u64_appended, lemma_word_appended, lemma_words_kept,
    lemma_words_within, push_all, push_u32, push_u64, push_zeros, round_up, u32_of, u64_of, zeros,
};
use crate::raw::pfs0::{pfs0_file_entry_at, pfs0_header_at, Pfs0FileEntry, Pfs0Header};

verus! {

/// PFS0 magic number: "PFS0" in ASCII.
pub const PFS0_MAGIC: u32 = 0x30534650;

/// Alignment of the string table's size.
pub const STRING_TABLE_ALIGN: usize = 0x20;

/// A file of the archive.
struct FileEntry {
    name: String,
    data: Vec<u8>,
}

/// Builder for PFS0 images.
pub struct Pfs0Builder {
    files: Vec<FileEntry>,
}

/// A file as the specifications see it: its name and its data.
pub type Pfs0File = (Seq<char>, Seq<u8>);

spec fn file_view(f: FileEntry) -> Pfs0File {
    (f.name@, f.data@)
}

spec fn files_view(fs: Seq<FileEntry>) -> Seq<Pfs0File> {
    fs.map_values(|f: FileEntry| file_view(f))
}

impl View for Pfs0Builder {
    type V = Seq<Pfs0File>;

    /// The files added, in the order they were added.
    closed spec fn view(&self) -> Seq<Pfs0File> {
        files_view(self.files@)
    }
}

/// The UTF-8 bytes of a file's name.
pub open spec fn name_bytes(f: Pfs0File) -> Seq<u8> {
    vstd::utf8::encode_utf8(f.0)
}

/// Whether no two files share a name.
pub open spec fn names_unique(fs: Seq<Pfs0File>) -> bool {
    forall|i: int, j: int| 0 <= i < j < fs.len() ==> #[trigger] fs[i].0 != #[trigger] fs[j].0
}

impl Pfs0Builder {
    /// Names are unique.
    #[verifier::type_invariant]
    spec fn unique(self) -> bool {
        names_unique(self@)
    }
}

/// Byte-wise lexicographic order: `a` sorts before `b`.
pub open spec fn bytes_lt(a: Seq<u8>, b: Seq<u8>) -> bool
    decreases a.len(),
{
    if a.len() == 0 {
        b.len() > 0
    } else if b.len() == 0 {
        false
    } else if a[0] != b[0] {
        a[0] < b[0]
    } else {
        bytes_lt(a.drop_first(), b.drop_first())
    }
}

/// Where a file goes in a sequence sorted by name: before the first file
/// whose name sorts after its own.
pub open spec fn insert_pos(s: Seq<Pfs0File>, f: Pfs0File) -> int
    decreases s.len(),
{
    if s.len() == 0 {
        0
    } else if bytes_lt(name_bytes(f), name_bytes(s[0])) {
        0
    } else {
        1 + insert_pos(s.drop_first(), f)
    }
}

/// The files sorted by name (stable insertion order among equal names).
pub open spec fn sort_by_name(fs: Seq<Pfs0File>) -> Seq<Pfs0File>
    decreases fs.len(),
{
    if fs.len() == 0 {
        Seq::empty()
    } else {
        let s = sort_by_name(fs.drop_last());
        s.insert(insert_pos(s, fs.last()), fs.last())
    }
}

/// Whether a name contains the given byte.
pub open spec fn has_byte(name: Seq<char>, b: u8) -> bool {
    vstd::utf8::encode_utf8(name).contains(b)
}

/// Errors of [`Pfs0Builder::add_file`].
#[derive(Debug)]
pub enum AddFileError {
    /// The file name is empty: PFS0 addresses a file only by its name.
    EmptyFileName,
    /// The name holds a null byte or a path separator, which the
    /// null-terminated, flat string table cannot hold.
    InvalidFileName {
        /// The rejected name.
        name: String,
        /// Why it was rejected.
        reason: &'static str,
    },
    /// A file of that name was already added.
    DuplicateFile {
        /// The duplicated name.
        name: String,
    },
}

/// Which error [`Pfs0Builder::add_file`] reports for a name, if any: `0` an
/// empty name, `1` a null byte, `2` a path separator, `3` a duplicate.
pub open spec fn add_file_check(files: Seq<Pfs0File>, name: Seq<char>) -> Option<int> {
    if name.len() == 0 {
        Some(0)
    } else if has_byte(name, 0) {
        Some(1)
    } else if has_byte(name, 0x2F) || has_byte(name, 0x5C) {
        Some(2)
    } else if exists|i: int| 0 <= i < files.len() && #[trigger] files[i].0 == name {
        Some(3)
    } else {
        None
    }
}

/// Whether `e` is the error that code `c` of [`add_file_check`] stands for,
/// for `name`.
pub open spec fn add_file_error_is(e: AddFileError, c: int, name: Seq<char>) -> bool {
    match e {
        AddFileError::EmptyFileName => c == 0,
        AddFileError::InvalidFileName { name: n, reason } => {
            &&& n@ == name
            &&& c == 1 ==> reason@ == "filename contains null byte"@
            &&& c == 2 ==> reason@ == "filename contains path separator"@
            &&& c == 1 || c == 2
        },
        AddFileError::DuplicateFile { name: n } => c == 3 && n@ == name,
    }
}

/// Whether `s` contains byte `b`.
fn contains_byte(s: &[u8], b: u8) -> (r: bool)
    ensures
        r == s@.contains(b),
{
    let mut i: usize = 0;
    while i < s.len()
        invariant
            i <= s.len(),
            forall|j: int| 0 <= j < i ==> s@[j] != b,
        decreases s.len() - i,
    {
        if s[i] == b {
            return true;
        }
        i = i + 1;
    }
    false
}

/// Byte-wise lexicographic comparison: whether `a` sorts before `b`.
pub fn lex_lt(a: &[u8], b: &[u8]) -> (r: bool)
    ensures
        r == bytes_lt(a@, b@),
{
    let n = if a.len() < b.len() {
        a.len()
    } else {
        b.len()
    };
    let mut i: usize = 0;
    assert(a@.skip(0) =~= a@ && b@.skip(0) =~= b@);
    while i < n
        invariant
            i <= n,
            n == (if a@.len() < b@.len() {
                a@.len()
            } else {
                b@.len()
            }),
            bytes_lt(a@, b@) == bytes_lt(a@.skip(i as int), b@.skip(i as int)),
        decreases n - i,
    {
        assert(a@.skip(i as int)[0] == a@[i as int] && b@.skip(i as int)[0] == b@[i as int]);
        if a[i] != b[i] {
            return a[i] < b[i];
        }
        assert(a@.skip(i as int).drop_first() =~= a@.skip(i + 1));
        assert(b@.skip(i as int).drop_first() =~= b@.skip(i + 1));
        i = i + 1;
    }
    a.len() < b.len()
}

/// Total size of the names in the string table, each with its terminating
/// zero.
pub open spec fn names_len(fs: Seq<Pfs0File>) -> int
    decreases fs.len(),
{
    if fs.len() == 0 {
        0
    } else {
        names_len(fs.drop_last()) + name_bytes(fs.last()).len() + 1
    }
}

/// Total size of the file data.
pub open spec fn data_len(fs: Seq<Pfs0File>) -> int
    decreases fs.len(),
{
    if fs.len() == 0 {
        0
    } else {
        data_len(fs.drop_last()) + fs.last().1.len()
    }
}

/// The file entry table: for each file, the offset of its data in the data
/// region, its size, the offset of its name in the string table, and a zero
/// word.
pub open spec fn file_entries(fs: Seq<Pfs0File>) -> Seq<u8>
    decreases fs.len(),
{
    if fs.len() == 0 {
        Seq::empty()
    } else {
        let pre = fs.drop_last();
        file_entries(pre) + le64(data_len(pre) as u64) + le64(fs.last().1.len() as u64) + le32(
            names_len(pre) as u32,
        ) + le32(0)
    }
}

/// The names, each followed by a zero byte.
pub open spec fn string_table(fs: Seq<Pfs0File>) -> Seq<u8>
    decreases fs.len(),
{
    if fs.len() == 0 {
        Seq::empty()
    } else {
        string_table(fs.drop_last()) + name_bytes(fs.last()) + seq![0u8]
    }
}

/// The file data, concatenated.
pub open spec fn file_data(fs: Seq<Pfs0File>) -> Seq<u8>
    decreases fs.len(),
{
    if fs.len() == 0 {
        Seq::empty()
    } else {
        file_data(fs.drop_last()) + fs.last().1
    }
}

/// The PFS0 image of files in the given order: header (magic, file count,
/// padded string table size, zero), entry table, string table padded with
/// zeros to a multiple of 0x20, data.
#[verifier::opaque]
pub open spec fn pfs0_image(fs: Seq<Pfs0File>) -> Seq<u8> {
    let st = round_up(names_len(fs), 0x20);
    le32(PFS0_MAGIC) + le32(fs.len() as u32) + le32(st as u32) + le32(0) + file_entries(fs)
        + string_table(fs) + zeros((st - names_len(fs)) as nat) + file_data(fs)
}

/// Whether the string table fits its 32-bit size field and the image fits
/// in memory.
pub open spec fn pfs0_fits(fs: Seq<Pfs0File>) -> bool {
    &&& round_up(names_len(fs), 0x20) <= u32::MAX
    &&& 0x10 + 0x18 * fs.len() + round_up(names_len(fs), 0x20) + data_len(fs) <= usize::MAX
}

/// A prefix's sizes are at most the whole's, and every name adds at least
/// one byte.
proof fn lemma_len_prefix(fs: Seq<Pfs0File>, i: int)
    requires
        0 <= i <= fs.len(),
    ensures
        names_len(fs.take(i)) <= names_len(fs),
        data_len(fs.take(i)) <= data_len(fs),
        fs.len() <= names_len(fs),
        0 <= data_len(fs.take(i)),
    decreases fs.len(),
{
    if fs.len() > 0 {
        if i == fs.len() {
            assert(fs.take(i) =~= fs);
            lemma_len_prefix(fs.drop_last(), i - 1);
        } else {
            assert(fs.drop_last().take(i) =~= fs.take(i));
            lemma_len_prefix(fs.drop_last(), i);
        }
    } else {
        assert(fs.take(i) =~= fs);
    }
}

/// Inserting a file adds its sizes.
proof fn lemma_insert_lens(s: Seq<Pfs0File>, k: int, f: Pfs0File)
    requires
        0 <= k <= s.len(),
    ensures
        names_len(s.insert(k, f)) == names_len(s) + name_bytes(f).len() + 1,
        data_len(s.insert(k, f)) == data_len(s) + f.1.len(),
    decreases s.len(),
{
    if k == s.len() {
        assert(s.insert(k, f).drop_last() =~= s);
    } else {
        lemma_insert_lens(s.drop_last(), k, f);
        assert(s.insert(k, f).drop_last() =~= s.drop_last().insert(k, f));
    }
}

/// Sorting keeps the sizes.
proof fn lemma_sort_lens(fs: Seq<Pfs0File>)
    ensures
        sort_by_name(fs).len() == fs.len(),
        names_len(sort_by_name(fs)) == names_len(fs),
        data_len(sort_by_name(fs)) == data_len(fs),
    decreases fs.len(),
{
    if fs.len() > 0 {
        lemma_sort_lens(fs.drop_last());
        let s = sort_by_name(fs.drop_last());
        lemma_insert_pos_range(s, fs.last());
        lemma_insert_lens(s, insert_pos(s, fs.last()), fs.last());
    }
}

/// An insertion position is within the sequence.
proof fn lemma_insert_pos_range(s: Seq<Pfs0File>, f: Pfs0File)
    ensures
        0 <= insert_pos(s, f) <= s.len(),
    decreases s.len(),
{
    if s.len() > 0 {
        lemma_insert_pos_range(s.drop_first(), f);
    }
}

/// No sequence sorts before itself.
proof fn lemma_bytes_lt_irreflexive(a: Seq<u8>)
    ensures
        !bytes_lt(a, a),
    decreases a.len(),
{
    if a.len() > 0 {
        lemma_bytes_lt_irreflexive(a.drop_first());
    }
}

/// The byte-wise order is transitive.
proof fn lemma_bytes_lt_transitive(a: Seq<u8>, b: Seq<u8>, c: Seq<u8>)
    requires
        bytes_lt(a, b),
        bytes_lt(b, c),
    ensures
        bytes_lt(a, c),
    decreases a.len(),
{
    if a.len() > 0 && b.len() > 0 && c.len() > 0 && a[0] == b[0] && b[0] == c[0] {
        lemma_bytes_lt_transitive(a.drop_first(), b.drop_first(), c.drop_first());
    }
}

/// Of two different sequences, one sorts before the other.
proof fn lemma_bytes_lt_total(a: Seq<u8>, b: Seq<u8>)
    requires
        a != b,
    ensures
        bytes_lt(a, b) || bytes_lt(b, a),
    decreases a.len(),
{
    if a.len() > 0 && b.len() > 0 && a[0] == b[0] {
        if a.drop_first() =~= b.drop_first() {
            assert(a.drop_first().len() == a.len() - 1 && b.drop_first().len() == b.len() - 1);
            assert(a.len() == b.len());
            assert(a =~= b) by {
                assert forall|i: int| 0 <= i < a.len() implies a[i] == b[i] by {
                    if i > 0 {
                        assert(a[i] == a.drop_first()[i - 1]);
                        assert(b[i] == b.drop_first()[i - 1]);
                    }
                }
            }
        }
        lemma_bytes_lt_total(a.drop_first(), b.drop_first());
    } else if a.len() == 0 && b.len() == 0 {
        assert(a =~= b);
    }
}

/// Whether each file's name sorts before the name of every file after it.
pub open spec fn sorted_by_name(s: Seq<Pfs0File>) -> bool {
    forall|i: int, j: int|
        0 <= i < j < s.len() ==> bytes_lt(name_bytes(#[trigger] s[i]), name_bytes(#[trigger] s[j]))
}

/// Every file before the insertion position sorts no later than `f`, and
/// the file at it sorts after `f`.
proof fn lemma_insert_pos_bounds(s: Seq<Pfs0File>, f: Pfs0File)
    ensures
        forall|j: int| 0 <= j < insert_pos(s, f) ==> !bytes_lt(name_bytes(f), name_bytes(#[trigger] s[j])),
        insert_pos(s, f) < s.len() ==> bytes_lt(name_bytes(f), name_bytes(s[insert_pos(s, f)])),
    decreases s.len(),
{
    if s.len() > 0 && !bytes_lt(name_bytes(f), name_bytes(s[0])) {
        lemma_insert_pos_bounds(s.drop_first(), f);
        lemma_insert_pos_range(s.drop_first(), f);
        let p = insert_pos(s.drop_first(), f);
        if p < s.drop_first().len() {
            assert(s[p + 1] == s.drop_first()[p]);
        }
        assert forall|j: int| 0 <= j < insert_pos(s, f) implies !bytes_lt(
            name_bytes(f),
            name_bytes(#[trigger] s[j]),
        ) by {
            if j > 0 {
                assert(s[j] == s.drop_first()[j - 1]);
            }
        }
    }
}

/// Whether `a` and `b` first differ at index `i`, where `a` has the smaller
/// byte.
pub open spec fn differs_first_below(a: Seq<u8>, b: Seq<u8>, i: int) -> bool {
    0 <= i < a.len() && i < b.len() && a.take(i) == b.take(i) && a[i] < b[i]
}

/// The order names are sorted by is byte-wise lexicographic: `a` sorts
/// before `b` exactly when `a` is a proper prefix of `b`, or at the first
/// index where they differ `a` has the smaller byte. In particular a
/// smaller first byte decides, whatever the lengths.
pub proof fn lemma_bytes_lt_lexicographic(a: Seq<u8>, b: Seq<u8>)
    ensures
        bytes_lt(a, b) <==> ((a.len() < b.len() && b.take(a.len() as int) == a) || exists|i: int|
            #[trigger] differs_first_below(a, b, i)),
        a.len() > 0 && b.len() > 0 && a[0] < b[0] ==> bytes_lt(a, b),
    decreases a.len(),
{
    if a.len() > 0 && b.len() > 0 && a[0] < b[0] {
        assert(a.take(0) =~= b.take(0));
        assert(differs_first_below(a, b, 0));
    }
    if a.len() == 0 {
        if b.len() > 0 {
            assert(b.take(0) =~= a);
        }
    } else if b.len() == 0 {
    } else if a[0] != b[0] {
        if a[0] < b[0] {
            assert(a.take(0) =~= b.take(0));
            assert(differs_first_below(a, b, 0));
        } else {
            assert(!(a.len() < b.len() && b.take(a.len() as int) == a)) by {
                if a.len() < b.len() && b.take(a.len() as int) == a {
                    assert(b.take(a.len() as int)[0] == b[0]);
                }
            }
            assert forall|i: int| !#[trigger] differs_first_below(a, b, i) by {
                if differs_first_below(a, b, i) && i > 0 {
                    assert(a.take(i)[0] == a[0] && b.take(i)[0] == b[0]);
                }
            }
        }
    } else {
        let a1 = a.drop_first();
        let b1 = b.drop_first();
        lemma_bytes_lt_lexicographic(a1, b1);
        if a.len() < b.len() && b.take(a.len() as int) == a {
            assert(b1.take(a1.len() as int) =~= a1) by {
                assert forall|k: int| 0 <= k < a1.len() implies #[trigger] b1.take(a1.len() as int)[k] == a1[k] by {
                    assert(b.take(a.len() as int)[k + 1] == a[k + 1]);
                }
            }
        }
        if a1.len() < b1.len() && b1.take(a1.len() as int) == a1 {
            assert(b.take(a.len() as int) =~= a) by {
                assert forall|k: int| 0 <= k < a.len() implies #[trigger] b.take(a.len() as int)[k] == a[k] by {
                    if k > 0 {
                        assert(b1.take(a1.len() as int)[k - 1] == a1[k - 1]);
                    }
                }
            }
        }
        if exists|i: int| #[trigger] differs_first_below(a, b, i) {
            let i = choose|i: int| #[trigger] differs_first_below(a, b, i);
            assert(i > 0);
            assert(a1.take(i - 1) =~= b1.take(i - 1)) by {
                assert forall|k: int| 0 <= k < i - 1 implies #[trigger] a1.take(i - 1)[k] == b1.take(i - 1)[k] by {
                    assert(a.take(i)[k + 1] == b.take(i)[k + 1]);
                }
            }
            assert(differs_first_below(a1, b1, i - 1));
        }
        if exists|i: int| #[trigger] differs_first_below(a1, b1, i) {
            let i = choose|i: int| #[trigger] differs_first_below(a1, b1, i);
            assert(a.take(i + 1) =~= b.take(i + 1)) by {
                assert forall|k: int| 0 <= k < i + 1 implies #[trigger] a.take(i + 1)[k] == b.take(i + 1)[k] by {
                    if k > 0 {
                        assert(a1.take(i)[k - 1] == b1.take(i)[k - 1]);
                    }
                }
            }
            assert(differs_first_below(a, b, i + 1));
        }
    }
}

/// Inserting a file of a new name at its position keeps a sequence sorted.
proof fn lemma_insert_sorted(s: Seq<Pfs0File>, f: Pfs0File)
    requires
        sorted_by_name(s),
        forall|j: int| 0 <= j < s.len() ==> (#[trigger] s[j]).0 != f.0,
    ensures
        sorted_by_name(s.insert(insert_pos(s, f), f)),
{
    let k = insert_pos(s, f);
    lemma_insert_pos_range(s, f);
    lemma_insert_pos_bounds(s, f);
    let t = s.insert(k, f);
    assert forall|j: int| 0 <= j < s.len() implies name_bytes(#[trigger] s[j]) != name_bytes(f) by {
        vstd::utf8::encode_utf8_decode_utf8(s[j].0);
        vstd::utf8::encode_utf8_decode_utf8(f.0);
    }
    assert forall|j: int| 0 <= j < k implies bytes_lt(name_bytes(#[trigger] s[j]), name_bytes(f)) by {
        lemma_bytes_lt_total(name_bytes(s[j]), name_bytes(f));
    }
    assert forall|j: int| k <= j < s.len() implies bytes_lt(name_bytes(f), name_bytes(#[trigger] s[j])) by {
        if j > k {
            lemma_bytes_lt_transitive(name_bytes(f), name_bytes(s[k]), name_bytes(s[j]));
        }
    }
    assert forall|i: int, j: int| 0 <= i < j < t.len() implies bytes_lt(
        name_bytes(#[trigger] t[i]),
        name_bytes(#[trigger] t[j]),
    ) by {
        if j < k {
            assert(t[i] == s[i] && t[j] == s[j]);
        } else if j == k {
            assert(t[i] == s[i]);
        } else if i < k {
            assert(t[i] == s[i] && t[j] == s[j - 1]);
            lemma_bytes_lt_transitive(name_bytes(s[i]), name_bytes(f), name_bytes(s[j - 1]));
        } else if i == k {
            assert(t[j] == s[j - 1]);
        } else {
            assert(t[i] == s[i - 1] && t[j] == s[j - 1]);
        }
    }
}

/// Once a name has been accepted, a second file of that name is refused as a
/// duplicate.
pub proof fn lemma_add_file_twice_is_duplicate(fs: Seq<Pfs0File>, name: Seq<char>, first: Seq<u8>)
    requires
        add_file_check(fs, name) is None,
    ensures
        add_file_check(fs.push((name, first)), name) == Some(3int),
{
    let t = fs.push((name, first));
    assert(t[fs.len() as int].0 == name);
}

/// What a build lays out are exactly the files added, and each file's name
/// sorts before the name of every file after it.
pub proof fn lemma_build_sorts_files(fs: Seq<Pfs0File>)
    requires
        names_unique(fs),
    ensures
        sort_by_name(fs).to_multiset() == fs.to_multiset(),
        sorted_by_name(sort_by_name(fs)),
    decreases fs.len(),
{
    broadcast use vstd::seq_lib::to_multiset_contains;
    if fs.len() == 0 {
        assert(sort_by_name(fs) =~= fs);
    } else {
        let pre = fs.drop_last();
        let f = fs.last();
        lemma_build_sorts_files(pre);
        let s = sort_by_name(pre);
        assert forall|j: int| 0 <= j < s.len() implies (#[trigger] s[j]).0 != f.0 by {
            assert(s.to_multiset().count(s[j]) > 0);
            assert(pre.contains(s[j]));
            let k = choose|k: int| 0 <= k < pre.len() && pre[k] == s[j];
            assert(fs[k] == pre[k]);
        }
        lemma_insert_sorted(s, f);
        lemma_insert_pos_range(s, f);
        vstd::seq_lib::to_multiset_insert(s, insert_pos(s, f), f);
        vstd::seq_lib::to_multiset_build(pre, f);
        assert(pre.push(f) =~= fs);
    }
}

/// Two sequences sorted by name that hold the same files are equal.
#[verifier::spinoff_prover]
proof fn lemma_sorted_same_files_equal(s1: Seq<Pfs0File>, s2: Seq<Pfs0File>)
    requires
        sorted_by_name(s1),
        sorted_by_name(s2),
        s1.to_multiset() == s2.to_multiset(),
    ensures
        s1 == s2,
    decreases s1.len(),
{
    vstd::seq_lib::to_multiset_len(s1);
    vstd::seq_lib::to_multiset_len(s2);
    if s1.len() == 0 {
        assert(s1 =~= s2);
    } else {
        let a = s1[0];
        let b = s2[0];
        vstd::seq_lib::to_multiset_contains(s1, a);
        vstd::seq_lib::to_multiset_contains(s2, a);
        vstd::seq_lib::to_multiset_contains(s1, b);
        vstd::seq_lib::to_multiset_contains(s2, b);
        assert(s1.contains(a));
        assert(s2.contains(b));
        if a != b {
            let j = choose|j: int| 0 <= j < s2.len() && s2[j] == a;
            let i = choose|i: int| 0 <= i < s1.len() && s1[i] == b;
            assert(bytes_lt(name_bytes(s2[0]), name_bytes(s2[j])));
            assert(bytes_lt(name_bytes(s1[0]), name_bytes(s1[i])));
            lemma_bytes_lt_transitive(name_bytes(a), name_bytes(b), name_bytes(a));
            lemma_bytes_lt_irreflexive(name_bytes(a));
        }
        let t1 = s1.drop_first();
        let t2 = s2.drop_first();
        vstd::seq_lib::to_multiset_remove(s1, 0);
        vstd::seq_lib::to_multiset_remove(s2, 0);
        assert(s1.remove(0) =~= t1);
        assert(s2.remove(0) =~= t2);
        assert forall|x: int, y: int| 0 <= x < y < t1.len() implies bytes_lt(
            name_bytes(#[trigger] t1[x]),
            name_bytes(#[trigger] t1[y]),
        ) by {
            assert(t1[x] == s1[x + 1] && t1[y] == s1[y + 1]);
        }
        assert forall|x: int, y: int| 0 <= x < y < t2.len() implies bytes_lt(
            name_bytes(#[trigger] t2[x]),
            name_bytes(#[trigger] t2[y]),
        ) by {
            assert(t2[x] == s2[x + 1] && t2[y] == s2[y + 1]);
        }
        lemma_sorted_same_files_equal(t1, t2);
        assert(s1 =~= s2) by {
            assert forall|k: int| 0 <= k < s1.len() implies s1[k] == s2[k] by {
                if k > 0 {
                    assert(s1[k] == t1[k - 1] && s2[k] == t2[k - 1]);
                }
            }
        }
    }
}

/// The archive a builder writes does not depend on the order in which its
/// files were added: two builders holding the same files write the same
/// bytes.
pub proof fn lemma_build_ignores_insertion_order(fs1: Seq<Pfs0File>, fs2: Seq<Pfs0File>)
    requires
        names_unique(fs1),
        names_unique(fs2),
        fs1.to_multiset() == fs2.to_multiset(),
    ensures
        sort_by_name(fs1) == sort_by_name(fs2),
        pfs0_image(sort_by_name(fs1)) == pfs0_image(sort_by_name(fs2)),
{
    lemma_build_sorts_files(fs1);
    lemma_build_sorts_files(fs2);
    lemma_sorted_same_files_equal(sort_by_name(fs1), sort_by_name(fs2));
}

/// Where `f` goes in `files` sorted by name.
fn find_insert_pos(files: &Vec<FileEntry>, f: &FileEntry) -> (r: usize)
    ensures
        r == insert_pos(files_view(files@), file_view(*f)),
{
    let ghost s = files_view(files@);
    let ghost g = file_view(*f);
    let nb = f.name.as_str().as_bytes();
    let mut k: usize = 0;
    assert(s.skip(0) =~= s);
    while k < files.len()
        invariant
            k <= files@.len(),
            s == files_view(files@),
            g == file_view(*f),
            nb@ == name_bytes(g),
            insert_pos(s, g) == k + insert_pos(s.skip(k as int), g),
        decreases files.len() - k,
    {
        assert(s.skip(k as int)[0] == s[k as int]);
        assert(s.skip(k as int).drop_first() =~= s.skip(k + 1));
        if lex_lt(nb, files[k].name.as_str().as_bytes()) {
            return k;
        }
        k = k + 1;
    }
    k
}

/// The files sorted by name.
fn sort_files(files: Vec<FileEntry>) -> (r: Vec<FileEntry>)
    ensures
        files_view(r@) == sort_by_name(files_view(files@)),
{
    let ghost fv = files_view(files@);
    let mut rest = files;
    let mut sorted: Vec<FileEntry> = Vec::new();
    let ghost mut i: int = 0;
    assert(fv.skip(0) =~= fv);
    assert(fv.take(0) =~= Seq::<Pfs0File>::empty());
    while rest.len() > 0
        invariant
            0 <= i <= fv.len(),
            rest@.len() + i == fv.len(),
            files_view(rest@) == fv.skip(i),
            files_view(sorted@) == sort_by_name(fv.take(i)),
        decreases rest.len(),
    {
        assert(files_view(rest@)[0] == fv[i]);
        let ghost old_rest = rest@;
        let f = rest.remove(0);
        assert(files_view(rest@) =~= files_view(old_rest).drop_first());
        assert(file_view(f) == fv[i]);
        let pos = find_insert_pos(&sorted, &f);
        proof {
            lemma_insert_pos_range(files_view(sorted@), file_view(f));
        }
        sorted.insert(pos, f);
        proof {
            assert(fv.take(i + 1).drop_last() =~= fv.take(i));
            assert(files_view(sorted@) =~= sort_by_name(fv.take(i + 1)));
            assert(fv.skip(i).drop_first() =~= fv.skip(i + 1));
            i = i + 1;
        }
    }
    assert(fv.take(i) =~= fv);
    sorted
}

/// `value` rounded up to a multiple of `alignment`, a power of two.
fn align_up(value: usize, alignment: usize) -> (r: usize)
    requires
        alignment == 0x20,
        value + alignment - 1 <= usize::MAX,
    ensures
        r == round_up(value as int, alignment as int),
{
    let x = value + (alignment - 1);
    let r = x & !(alignment - 1);
    assert(r == x - x % 32) by (bit_vector)
        requires
            r == x & !(31usize),
    ;
    r
}

/// Total size of the names of `files` with their terminating zeros.
fn names_total(files: &Vec<FileEntry>) -> (r: usize)
    requires
        names_len(files_view(files@)) <= u32::MAX,
    ensures
        r == names_len(files_view(files@)),
{
    let ghost fv = files_view(files@);
    let mut total: usize = 0;
    let mut i: usize = 0;
    while i < files.len()
        invariant
            i <= files@.len(),
            fv == files_view(files@),
            names_len(fv) <= u32::MAX,
            total == names_len(fv.take(i as int)),
        decreases files.len() - i,
    {
        proof {
            assert(fv.take(i + 1).drop_last() =~= fv.take(i as int));
            lemma_len_prefix(fv, i + 1);
        }
        total = total + files[i].name.as_str().as_bytes().len() + 1;
        i = i + 1;
    }
    assert(fv.take(i as int) =~= fv);
    total
}

/// Lays out the image of files already in order.
fn emit(files: &Vec<FileEntry>) -> (r: Vec<u8>)
    requires
        pfs0_fits(files_view(files@)),
    ensures
        r@ == pfs0_image(files_view(files@)),
{
    let ghost fv = files_view(files@);
    proof {
        lemma_len_prefix(fv, 0);
    }
    let raw = names_total(files);
    let string_table_size = align_up(raw, STRING_TABLE_ALIGN);
    let mut out: Vec<u8> = Vec::new();
    push_u32(&mut out, PFS0_MAGIC);
    push_u32(&mut out, files.len() as u32);
    push_u32(&mut out, string_table_size as u32);
    push_u32(&mut out, 0);
    let ghost head = out@;
    // File entry table.
    let mut data_offset: u64 = 0;
    let mut string_offset: u32 = 0;
    let mut i: usize = 0;
    while i < files.len()
        invariant
            i <= files@.len(),
            fv == files_view(files@),
            pfs0_fits(fv),
            data_offset == data_len(fv.take(i as int)),
            string_offset == names_len(fv.take(i as int)),
            out@ == head + file_entries(fv.take(i as int)),
        decreases files.len() - i,
    {
        proof {
            assert(fv.take(i + 1).drop_last() =~= fv.take(i as int));
            lemma_len_prefix(fv, i + 1);
        }
        let size = files[i].data.len() as u64;
        push_u64(&mut out, data_offset);
        push_u64(&mut out, size);
        push_u32(&mut out, string_offset);
        push_u32(&mut out, 0);
        data_offset = data_offset + size;
        string_offset = string_offset + (files[i].name.as_str().as_bytes().len() + 1) as u32;
        i = i + 1;
    }
    assert(fv.take(i as int) =~= fv);
    // String table.
    let ghost mid = out@;
    let mut j: usize = 0;
    while j < files.len()
        invariant
            j <= files@.len(),
            fv == files_view(files@),
            out@ == mid + string_table(fv.take(j as int)),
        decreases files.len() - j,
    {
        assert(fv.take(j + 1).drop_last() =~= fv.take(j as int));
        push_all(&mut out, files[j].name.as_str().as_bytes());
        out.push(0);
        j = j + 1;
        assert(out@ =~= mid + string_table(fv.take(j as int)));
    }
    assert(fv.take(j as int) =~= fv);
    push_zeros(&mut out, string_table_size - raw);
    // File data.
    let ghost mid2 = out@;
    let mut k: usize = 0;
    while k < files.len()
        invariant
            k <= files@.len(),
            fv == files_view(files@),
            out@ == mid2 + file_data(fv.take(k as int)),
        decreases files.len() - k,
    {
        assert(fv.take(k + 1).drop_last() =~= fv.take(k as int));
        push_all(&mut out, files[k].data.as_slice());
        k = k + 1;
    }
    assert(fv.take(k as int) =~= fv);
    proof {
        reveal(pfs0_image);
    }
    out
}

/// Adding `entries` one after another to a builder holding `fs`: the files
/// then held, or the error code of [`add_file_check`] and the name of the
/// first entry refused.
pub open spec fn add_files_spec(fs: Seq<Pfs0File>, entries: Seq<Pfs0File>) -> Result<Seq<Pfs0File>, (int, Seq<char>)>
    decreases entries.len(),
{
    if entries.len() == 0 {
        Ok(fs)
    } else {
        match add_file_check(fs, entries[0].0) {
            Some(c) => Err((c, entries[0].0)),
            None => add_files_spec(fs.push(entries[0]), entries.drop_first()),
        }
    }
}

/// The files of a scan as the specifications see them.
pub open spec fn scanned_view(files: Seq<(String, Vec<u8>)>) -> Seq<Pfs0File> {
    files.map_values(|e: (String, Vec<u8>)| (e.0@, e.1@))
}

impl Pfs0Builder {
    /// Create an empty builder.
    pub fn new() -> (r: Self)
        ensures
            r@ == Seq::<Pfs0File>::empty(),
    {
        let r = Pfs0Builder { files: Vec::new() };
        assert(r@ =~= Seq::<Pfs0File>::empty());
        r
    }

    /// Add a file. Files keep the order they are added in until the archive
    /// is built, which sorts them by name.
    ///
    /// Fails when the name is empty, holds a null byte or a path separator
    /// (`/` or `\`), or repeats a name already added; every name is checked
    /// here, so [`Pfs0Builder::build`] cannot fail.
    pub fn add_file(self, name: String, data: Vec<u8>) -> (r: Result<Self, AddFileError>)
        ensures
            add_file_check(self@, name@) is None ==> (r matches Ok(b) && b@ == self@.push(
                (name@, data@),
            )),
            add_file_check(self@, name@) matches Some(c) ==> (r matches Err(e)
                && add_file_error_is(e, c, name@)),
    {
        proof {
            use_type_invariant(&self);
        }
        let bytes = name.as_str().as_bytes();
        if bytes.len() == 0 {
            assert(name@.len() == 0) by {
                if name@.len() > 0 {
                    vstd::utf8::encode_utf8_first_scalar(name@);
                }
            }
            return Err(AddFileError::EmptyFileName);
        }
        assert(name@.len() > 0);
        if contains_byte(bytes, 0) {
            return Err(
                AddFileError::InvalidFileName { name, reason: "filename contains null byte" },
            );
        }
        if contains_byte(bytes, 0x2F) || contains_byte(bytes, 0x5C) {
            return Err(
                AddFileError::InvalidFileName { name, reason: "filename contains path separator" },
            );
        }
        let mut i: usize = 0;
        while i < self.files.len()
            invariant
                i <= self.files@.len(),
                name@.len() > 0,
                !has_byte(name@, 0) && !has_byte(name@, 0x2F) && !has_byte(name@, 0x5C),
                forall|j: int| 0 <= j < i ==> self@[j].0 != name@,
            decreases self.files@.len() - i,
        {
            if self.files[i].name == name {
                assert(self@[i as int].0 == name@);
                assert(add_file_check(self@, name@) == Some(3int));
                return Err(AddFileError::DuplicateFile { name });
            }
            i = i + 1;
        }
        assert(!exists|j: int| 0 <= j < self@.len() && #[trigger] self@[j].0 == name@);
        let mut files = self.files;
        files.push(FileEntry { name, data });
        proof {
            assert(files_view(files@) =~= self@.push((name@, data@)));
            assert forall|p: int, q: int| 0 <= p < q < files_view(files@).len() implies #[trigger] files_view(files@)[p].0 != #[trigger] files_view(files@)[q].0 by {
                if q == self@.len() {
                    assert(self@[p].0 != name@);
                }
            }
        }
        let r = Pfs0Builder { files };
        assert(r@ =~= self@.push((name@, data@)));
        Ok(r)
    }
    /// Build from the files found in a directory: sorted by name, then
    /// added one by one, so that the first refused name is reported.
    pub fn from_scanned_files(files: Vec<(String, Vec<u8>)>) -> (r: Result<Self, AddFileError>)
        ensures
            match add_files_spec(Seq::empty(), sort_by_name(scanned_view(files@))) {
                Ok(w) => r matches Ok(b) && b@ == w,
                Err((c, n)) => r matches Err(e) && add_file_error_is(e, c, n),
            },
    {
        let ghost sv = scanned_view(files@);
        let mut rest = files;
        let mut entries: Vec<FileEntry> = Vec::new();
        let ghost mut i: int = 0;
        assert(sv.take(0) =~= Seq::<Pfs0File>::empty());
        while rest.len() > 0
            invariant
                0 <= i <= sv.len(),
                scanned_view(rest@) == sv.skip(i),
                files_view(entries@) == sv.take(i),
            decreases rest.len(),
        {
            let ghost before = rest@;
            let (name, data) = rest.remove(0);
            assert(scanned_view(rest@) =~= scanned_view(before).drop_first());
            assert(sv.skip(i)[0] == (name@, data@));
            let ghost old_e = entries@;
            let fe = FileEntry { name, data };
            assert(file_view(fe) == sv[i]);
            entries.push(fe);
            proof {
                assert(sv.skip(i).drop_first() =~= sv.skip(i + 1));
                assert(files_view(entries@) =~= files_view(old_e).push(file_view(fe)));
                assert(sv.take(i + 1) =~= sv.take(i).push(sv[i]));
                i = i + 1;
            }
        }
        assert(sv.take(i) =~= sv) by {
            assert(sv.skip(i).len() == 0);
        }
        let mut sorted = sort_files(entries);
        let ghost target = add_files_spec(Seq::empty(), sort_by_name(sv));
        let mut b = Pfs0Builder::new();
        while sorted.len() > 0
            invariant
                add_files_spec(b@, files_view(sorted@)) == target,
                target == add_files_spec(Seq::empty(), sort_by_name(scanned_view(files@))),
            decreases sorted.len(),
        {
            let ghost before = sorted@;
            let f = sorted.remove(0);
            let ghost head = (f.name@, f.data@);
            let ghost b0 = b@;
            assert(files_view(sorted@) =~= files_view(before).drop_first());
            assert(files_view(before)[0] == head);
            assert(add_files_spec(b0, files_view(before)) == match add_file_check(b0, head.0) {
                Some(c) => Err((c, head.0)),
                None => add_files_spec(b0.push(head), files_view(sorted@)),
            });
            match b.add_file(f.name, f.data) {
                Ok(nb) => {
                    b = nb;
                },
                Err(e) => {
                    return Err(e);
                },
            }
        }
        Ok(b)
    }

    /// Build the archive: the files sorted by name, laid out after the
    /// header, entry table and padded string table. Cannot fail: every name
    /// was checked when it was added.
    pub fn build(self) -> (r: Vec<u8>)
        requires
            pfs0_fits(self@),
        ensures
            r@ == pfs0_image(sort_by_name(self@)),
    {
        proof {
            lemma_sort_lens(self@);
        }
        let sorted = sort_files(self.files);
        emit(&sorted)
    }
}

impl Default for Pfs0Builder {
    fn default() -> (r: Self)
        ensures
            r@ == Seq::<Pfs0File>::empty(),
    {
        Self::new()
    }
}

/// The file entry of `f` after the files `pre`.
pub open spec fn entry_of(pre: Seq<Pfs0File>, f: Pfs0File) -> Seq<u8> {
    le64(data_len(pre) as u64) + le64(f.1.len() as u64) + le32(names_len(pre) as u32) + le32(0)
}

/// Entry `j` lies in the entry table at `0x18 * j`.
proof fn lemma_entries_at(fs: Seq<Pfs0File>, j: int)
    requires
        0 <= j < fs.len(),
    ensures
        file_entries(fs).len() == 0x18 * fs.len(),
        file_entries(fs).subrange(0x18 * j, 0x18 * j + 0x18) == entry_of(fs.take(j), fs[j]),
    decreases fs.len(),
{
    let pre = fs.drop_last();
    lemma_entries_len(pre);
    if j == fs.len() - 1 {
        assert(fs.take(j) =~= pre);
        assert(file_entries(fs) == file_entries(pre) + entry_of(pre, fs.last()));
        assert(file_entries(fs).subrange(0x18 * j, 0x18 * j + 0x18) =~= entry_of(pre, fs.last()));
    } else {
        lemma_entries_at(pre, j);
        assert(pre.take(j) =~= fs.take(j));
        assert(file_entries(fs) == file_entries(pre) + entry_of(pre, fs.last()));
        lemma_ranges_kept(file_entries(pre), entry_of(pre, fs.last()));
    }
}

/// The entry table holds 0x18 bytes per file.
proof fn lemma_entries_len(fs: Seq<Pfs0File>)
    ensures
        file_entries(fs).len() == 0x18 * fs.len(),
    decreases fs.len(),
{
    if fs.len() > 0 {
        lemma_entries_len(fs.drop_last());
    }
}

/// The name of file `j` lies in the string table after the names before
/// it, followed by a zero byte.
proof fn lemma_string_table_at(fs: Seq<Pfs0File>, j: int)
    requires
        0 <= j < fs.len(),
    ensures
        string_table(fs).len() == names_len(fs),
        names_len(fs.take(j + 1)) == names_len(fs.take(j)) + name_bytes(fs[j]).len() + 1,
        string_table(fs).subrange(names_len(fs.take(j)), names_len(fs.take(j + 1))) == name_bytes(fs[j]) + seq![0u8],
    decreases fs.len(),
{
    let pre = fs.drop_last();
    lemma_string_table_len(pre);
    lemma_len_prefix(fs, j);
    lemma_len_prefix(fs, j + 1);
    lemma_len_prefix(fs.take(j), 0);
    assert(fs.take(j + 1).drop_last() =~= fs.take(j));
    assert(fs.take(j + 1).last() == fs[j]);
    if j == fs.len() - 1 {
        assert(fs.take(j) =~= pre);
        assert(string_table(fs).subrange(names_len(pre), names_len(fs)) =~= name_bytes(fs.last()) + seq![0u8]);
        assert(fs.take(j + 1) =~= fs);
    } else {
        lemma_string_table_at(pre, j);
        assert(pre.take(j) =~= fs.take(j));
        assert(pre.take(j + 1) =~= fs.take(j + 1));
        lemma_len_prefix(pre, j + 1);
        lemma_ranges_kept(string_table(pre), name_bytes(fs.last()) + seq![0u8]);
        assert(string_table(fs) =~= string_table(pre) + (name_bytes(fs.last()) + seq![0u8]));
    }
}

/// The string table holds each name and its zero byte.
proof fn lemma_string_table_len(fs: Seq<Pfs0File>)
    ensures
        string_table(fs).len() == names_len(fs),
    decreases fs.len(),
{
    if fs.len() > 0 {
        lemma_string_table_len(fs.drop_last());
    }
}

/// The data of file `j` lies in the data region after the data before it.
proof fn lemma_file_data_at(fs: Seq<Pfs0File>, j: int)
    requires
        0 <= j < fs.len(),
    ensures
        file_data(fs).len() == data_len(fs),
        data_len(fs.take(j + 1)) == data_len(fs.take(j)) + fs[j].1.len(),
        file_data(fs).subrange(data_len(fs.take(j)), data_len(fs.take(j + 1))) == fs[j].1,
    decreases fs.len(),
{
    let pre = fs.drop_last();
    lemma_file_data_len(pre);
    lemma_len_prefix(fs, j);
    lemma_len_prefix(fs, j + 1);
    assert(fs.take(j + 1).drop_last() =~= fs.take(j));
    assert(fs.take(j + 1).last() == fs[j]);
    if j == fs.len() - 1 {
        assert(fs.take(j) =~= pre);
        assert(file_data(fs).subrange(data_len(pre), data_len(fs)) =~= fs.last().1);
        assert(fs.take(j + 1) =~= fs);
    } else {
        lemma_file_data_at(pre, j);
        assert(pre.take(j) =~= fs.take(j));
        assert(pre.take(j + 1) =~= fs.take(j + 1));
        lemma_len_prefix(pre, j + 1);
        lemma_ranges_kept(file_data(pre), fs.last().1);
    }
}

/// The data region holds every file's data.
proof fn lemma_file_data_len(fs: Seq<Pfs0File>)
    ensures
        file_data(fs).len() == data_len(fs),
    decreases fs.len(),
{
    if fs.len() > 0 {
        lemma_file_data_len(fs.drop_last());
    }
}

/// A file entry decodes to the values it was laid out from.
proof fn lemma_entry_fields(pre: Seq<Pfs0File>, f: Pfs0File)
    ensures
        ({
            let e = entry_of(pre, f);
            &&& e.len() == 0x18
            &&& pfs0_file_entry_at(e, 0) == (Pfs0FileEntry {
                offset: data_len(pre) as u64,
                size: f.1.len() as u64,
                string_table_offset: names_len(pre) as u32,
                reserved: 0,
            })
        }),
{
    let p1 = le64(data_len(pre) as u64);
    let p2 = p1 + le64(f.1.len() as u64);
    let p3 = p2 + le32(names_len(pre) as u32);
    let e = p3 + le32(0);
    assert(entry_of(pre, f) == e);
    lemma_u64_appended(Seq::empty(), data_len(pre) as u64);
    assert(Seq::<u8>::empty() + p1 =~= p1);
    lemma_u64_appended(p1, f.1.len() as u64);
    lemma_word_appended(p2, names_len(pre) as u32);
    lemma_word_appended(p3, 0);
    lemma_words_kept(p1, le64(f.1.len() as u64));
    lemma_words_kept(p2, le32(names_len(pre) as u32));
    lemma_words_kept(p3, le32(0));
}

/// What a PFS0 build lays out reads back: the header holds the magic, the
/// file count and the padded string table size; entry `j` (at
/// `0x10 + 0x18 * j`) holds where file `j`'s data starts in the data region,
/// its size and where its name starts in the string table; the name is
/// there, zero-terminated; and the data is there in the data region, which
/// follows the padded string table.
#[verifier::spinoff_prover]
#[verifier::rlimit(40)]
pub proof fn lemma_built_pfs0_reads_back(fs: Seq<Pfs0File>, j: int)
    requires
        pfs0_fits(fs),
        0 <= j < fs.len(),
    ensures
        ({
            let b = pfs0_image(fs);
            let n = fs.len() as int;
            let st = round_up(names_len(fs), 0x20);
            let names_at = 0x10 + 0x18 * n;
            let data_at = names_at + st;
            let name_off = names_len(fs.take(j));
            let data_off = data_len(fs.take(j));
            &&& pfs0_header_at(b) == (Pfs0Header {
                magic: PFS0_MAGIC,
                file_count: n as u32,
                string_table_size: st as u32,
                reserved: 0,
            })
            &&& pfs0_file_entry_at(b, 0x10 + 0x18 * j) == (Pfs0FileEntry {
                offset: data_off as u64,
                size: fs[j].1.len() as u64,
                string_table_offset: name_off as u32,
                reserved: 0,
            })
            &&& b.subrange(names_at + name_off, names_at + name_off + name_bytes(fs[j]).len() + 1)
                == name_bytes(fs[j]) + seq![0u8]
            &&& b.subrange(data_at + data_off, data_at + data_off + fs[j].1.len()) == fs[j].1
        }),
{
    let n = fs.len() as int;
    let st = round_up(names_len(fs), 0x20);
    let h = le32(PFS0_MAGIC) + le32(n as u32) + le32(st as u32) + le32(0);
    let ents = file_entries(fs);
    let tbl = string_table(fs);
    let pad = zeros((st - names_len(fs)) as nat);
    let dat = file_data(fs);
    let b = h + ents + tbl + pad + dat;
    assert(pfs0_image(fs) == b) by {
        reveal(pfs0_image);
    }
    assert(pfs0_header_at(b) == (Pfs0Header {
        magic: PFS0_MAGIC,
        file_count: n as u32,
        string_table_size: st as u32,
        reserved: 0,
    })) by {
        lemma_pfs0_header_words(n as u32, st as u32, ents + tbl + pad + dat);
        assert(b =~= h + (ents + tbl + pad + dat));
    }
    let o = 0x10 + 0x18 * j;
    assert(pfs0_file_entry_at(b, o) == (Pfs0FileEntry {
        offset: data_len(fs.take(j)) as u64,
        size: fs[j].1.len() as u64,
        string_table_offset: names_len(fs.take(j)) as u32,
        reserved: 0,
    })) by {
        lemma_entries_at(fs, j);
        let e = entry_of(fs.take(j), fs[j]);
        lemma_entry_fields(fs.take(j), fs[j]);
        assert(b.subrange(o, o + 0x18) =~= ents.subrange(0x18 * j, 0x18 * j + 0x18));
        lemma_pfs0_entry_read(b, o, e);
    }
    let names_at = 0x10 + 0x18 * n;
    let a1 = names_len(fs.take(j));
    let c1 = names_len(fs.take(j + 1));
    assert(b.subrange(names_at + a1, names_at + a1 + name_bytes(fs[j]).len() + 1) == name_bytes(fs[j]) + seq![0u8]) by {
        lemma_entries_len(fs);
        lemma_string_table_at(fs, j);
        lemma_len_prefix(fs, j + 1);
        lemma_len_prefix(fs.take(j), 0);
        assert(b.subrange(names_at + a1, names_at + c1) =~= tbl.subrange(a1, c1));
    }
    let a2 = data_len(fs.take(j));
    let c2 = data_len(fs.take(j + 1));
    assert(b.subrange(names_at + st + a2, names_at + st + a2 + fs[j].1.len()) == fs[j].1) by {
        lemma_entries_len(fs);
        lemma_string_table_len(fs);
        lemma_file_data_at(fs, j);
        lemma_len_prefix(fs, j + 1);
        lemma_len_prefix(fs, j);
        lemma_len_prefix(fs, fs.len() as int);
        assert(fs.take(fs.len() as int) =~= fs);
        assert(b.subrange(names_at + st + a2, names_at + st + c2) =~= dat.subrange(a2, c2));
    }
}

/// An entry laid at `o` of `b` decodes as the entry alone does.
proof fn lemma_pfs0_entry_read(b: Seq<u8>, o: int, e: Seq<u8>)
    requires
        0 <= o,
        e.len() == 0x18,
        o + 0x18 <= b.len(),
        b.subrange(o, o + 0x18) == e,
    ensures
        pfs0_file_entry_at(b, o) == pfs0_file_entry_at(e, 0),
{
    lemma_words_within(b, o, e);
    assert(u32_of(b, o) == u32_of(e, 0));
    assert(u32_of(b, o + 4) == u32_of(e, 4));
    assert(u32_of(b, o + 8) == u32_of(e, 8));
    assert(u32_of(b, o + 12) == u32_of(e, 12));
    assert(u32_of(b, o + 16) == u32_of(e, 16));
    assert(u32_of(b, o + 20) == u32_of(e, 20));
}

/// The header words of an image, read back.
proof fn lemma_pfs0_header_words(n: u32, st: u32, rest: Seq<u8>)
    ensures
        pfs0_header_at(le32(PFS0_MAGIC) + le32(n) + le32(st) + le32(0) + rest) == (Pfs0Header {
            magic: PFS0_MAGIC,
            file_count: n,
            string_table_size: st,
            reserved: 0,
        }),
{
    let h1 = le32(PFS0_MAGIC);
    let h2 = h1 + le32(n);
    let h3 = h2 + le32(st);
    let h = h3 + le32(0);
    lemma_word_appended(Seq::empty(), PFS0_MAGIC);
    assert(Seq::<u8>::empty() + h1 =~= h1);
    lemma_word_appended(h1, n);
    lemma_word_appended(h2, st);
    lemma_word_appended(h3, 0);
    lemma_words_kept(h1, le32(n));
    lemma_words_kept(h2, le32(st));
    lemma_words_kept(h3, le32(0));
    lemma_words_kept(h, rest);
}

} // verus!
