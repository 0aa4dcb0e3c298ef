//! NACP (application control property) reading.

use vstd::prelude::*;
use vstd::string::StringSliceAdditionalSpecFns;

use crate::bytes::{cstr, cstr_len, read_name, stored_name};
use crate::raw::nacp::{nacp_struct_is, read_nacp_struct, NacpStruct};

verus! {

/// System language codes, in the order of libnx `SetLanguage`.
#[derive(Debug, Clone, Copy, PartialEq, Eq, Structural)]
pub enum SetLanguage {
    /// Japanese
    JA,
    /// English (US)
    ENUS,
    /// French
    FR,
    /// German
    DE,
    /// Italian
    IT,
    /// Spanish
    ES,
    /// Chinese (Simplified)
    ZHCN,
    /// Korean
    KO,
    /// Dutch
    NL,
    /// Portuguese
    PT,
    /// Russian
    RU,
    /// Chinese (Traditional)
    ZHTW,
    /// English (UK)
    ENGB,
    /// French (Canada)
    FRCA,
    /// Spanish (Latin America)
    ES419,
    /// Chinese (Simplified, alternative)
    ZHHANS,
    /// Chinese (Traditional, alternative)
    ZHHANT,
    /// Portuguese (Brazil)
    PTBR,
}

/// The NACP language entry slot of a language.
pub open spec fn language_slot(lang: SetLanguage) -> int {
    match lang {
        SetLanguage::ENUS => 0,
        SetLanguage::ENGB => 1,
        SetLanguage::JA => 2,
        SetLanguage::FR => 3,
        SetLanguage::DE => 4,
        SetLanguage::ES419 => 5,
        SetLanguage::ES => 6,
        SetLanguage::IT => 7,
        SetLanguage::NL => 8,
        SetLanguage::FRCA => 9,
        SetLanguage::PT => 10,
        SetLanguage::RU => 11,
        SetLanguage::KO => 12,
        SetLanguage::ZHTW | SetLanguage::ZHHANT => 13,
        SetLanguage::ZHCN | SetLanguage::ZHHANS => 14,
        SetLanguage::PTBR => 15,
    }
}


/// The NACP's sixteen language entries in their fixed order: American
/// English 0, British English 1, Japanese 2, French 3, German 4, Latin
/// American Spanish 5, Spanish 6, Italian 7, Dutch 8, Canadian French 9,
/// Portuguese 10, Russian 11, Korean 12, traditional Chinese 13 (both
/// codes), simplified Chinese 14 (both codes), Brazilian Portuguese 15;
/// entry `i` holds its name at `0x300 * i` and its author `0x200` bytes on.
pub proof fn lemma_language_slots(b: Seq<u8>)
    ensures
        language_slot(SetLanguage::ENUS) == 0,
        language_slot(SetLanguage::ENGB) == 1,
        language_slot(SetLanguage::JA) == 2,
        language_slot(SetLanguage::FR) == 3,
        language_slot(SetLanguage::DE) == 4,
        language_slot(SetLanguage::ES419) == 5,
        language_slot(SetLanguage::ES) == 6,
        language_slot(SetLanguage::IT) == 7,
        language_slot(SetLanguage::NL) == 8,
        language_slot(SetLanguage::FRCA) == 9,
        language_slot(SetLanguage::PT) == 10,
        language_slot(SetLanguage::RU) == 11,
        language_slot(SetLanguage::KO) == 12,
        language_slot(SetLanguage::ZHTW) == 13,
        language_slot(SetLanguage::ZHHANT) == 13,
        language_slot(SetLanguage::ZHCN) == 14,
        language_slot(SetLanguage::ZHHANS) == 14,
        language_slot(SetLanguage::PTBR) == 15,
        forall|i: int| 0 <= i < 16 ==> #[trigger] entry_name(b, i) == b.subrange(0x300 * i, 0x300 * i + 0x200),
        forall|i: int|
            0 <= i < 16 ==> #[trigger] entry_author(b, i) == b.subrange(0x300 * i + 0x200, 0x300 * i + 0x300),
{
}

/// Size of a NACP structure.
pub const NACP_LEN: usize = 0x4000;

/// Size of a language entry: a 0x200-byte name and a 0x100-byte author.
pub const LANGUAGE_ENTRY_LEN: usize = 0x300;

/// Offset of the display version field.
pub const DISPLAY_VERSION_OFFSET: usize = 0x3060;

/// Error of [`Nacp::try_from_bytes`]: the buffer cannot hold a NACP.
#[derive(Debug, PartialEq, Eq, Structural)]
pub struct FromBytesError {
    /// Number of bytes required
    pub required: usize,
    /// Number of bytes available
    pub available: usize,
}

/// A language entry: the name and author fields (UTF-8, null-terminated).
pub struct NacpLanguageEntry<'a> {
    /// Application name field (0x200 bytes)
    pub name: &'a [u8],
    /// Publisher field (0x100 bytes)
    pub author: &'a [u8],
}

/// A parsed NACP.
pub struct Nacp<'a> {
    raw: &'a [u8],
}

impl<'a> View for Nacp<'a> {
    type V = Seq<u8>;

    /// The 0x4000 bytes of the NACP.
    closed spec fn view(&self) -> Seq<u8> {
        self.raw@
    }
}

/// The name field of language entry `i`.
pub open spec fn entry_name(b: Seq<u8>, i: int) -> Seq<u8> {
    b.subrange(0x300 * i, 0x300 * i + 0x200)
}

/// The author field of language entry `i`.
pub open spec fn entry_author(b: Seq<u8>, i: int) -> Seq<u8> {
    b.subrange(0x300 * i + 0x200, 0x300 * i + 0x300)
}

/// Whether language entry `i` is set: its name does not start with a zero.
pub open spec fn entry_present(b: Seq<u8>, i: int) -> bool {
    b[0x300 * i] != 0
}

/// The first set language entry at index `i` or later.
pub open spec fn first_present(b: Seq<u8>, i: int) -> Option<int>
    decreases 16 - i,
{
    if i < 0 || i >= 16 {
        None
    } else if entry_present(b, i) {
        Some(i)
    } else {
        first_present(b, i + 1)
    }
}

/// The entry [`Nacp::language_entry_for`] picks for `lang`: its own slot
/// when set, else the first set entry.
pub open spec fn entry_for(b: Seq<u8>, lang: SetLanguage) -> Option<int> {
    if entry_present(b, language_slot(lang)) {
        Some(language_slot(lang))
    } else {
        first_present(b, 0)
    }
}

impl<'a> Nacp<'a> {
    /// The NACP holds 0x4000 bytes.
    #[verifier::type_invariant]
    spec fn sized(self) -> bool {
        self.raw@.len() == 0x4000
    }

    /// Parse a NACP from the first 0x4000 bytes of `bytes`.
    pub fn try_from_bytes(bytes: &'a [u8]) -> (r: Result<Self, FromBytesError>)
        ensures
            bytes@.len() < 0x4000 ==> r == Err::<Self, FromBytesError>(
                FromBytesError { required: 0x4000, available: bytes@.len() as usize },
            ),
            bytes@.len() >= 0x4000 ==> (r matches Ok(n) && n@ == bytes@.take(0x4000)),
    {
        if bytes.len() < NACP_LEN {
            return Err(FromBytesError { required: NACP_LEN, available: bytes.len() });
        }
        Ok(Nacp { raw: vstd::slice::slice_subrange(bytes, 0, NACP_LEN) })
    }

    /// The NACP structure, each field decoded from its offset.
    pub fn raw(&self) -> (r: NacpStruct)
        ensures
            nacp_struct_is(r, self@),
    {
        proof {
            use_type_invariant(self);
        }
        read_nacp_struct(self.raw)
    }

    /// The 0x4000 bytes of the NACP.
    pub fn bytes(&self) -> (r: &'a [u8])
        ensures
            r@ == self@,
    {
        self.raw
    }

    /// Language entry `index` (0-15), or `None` when the index is out of
    /// range or the entry is not set.
    pub fn language_entry(&self, index: usize) -> (r: Option<NacpLanguageEntry<'a>>)
        ensures
            (index < 16 && entry_present(self@, index as int)) ==> (r matches Some(e)
                && e.name@ == entry_name(self@, index as int) && e.author@ == entry_author(
                self@,
                index as int,
            )),
            !(index < 16 && entry_present(self@, index as int)) ==> r is None,
    {
        proof {
            use_type_invariant(self);
        }
        if index >= 16 {
            return None;
        }
        let base = index * LANGUAGE_ENTRY_LEN;
        if self.raw[base] == 0 {
            return None;
        }
        Some(
            NacpLanguageEntry {
                name: vstd::slice::slice_subrange(self.raw, base, base + 0x200),
                author: vstd::slice::slice_subrange(self.raw, base + 0x200, base + 0x300),
            },
        )
    }

    /// The display version: the field up to its first zero byte, or empty
    /// when that is not valid UTF-8.
    pub fn display_version(&self) -> (r: &'a str)
        ensures
            r.spec_bytes() == stored_name(cstr(self@.subrange(0x3060, 0x3070))),
    {
        proof {
            use_type_invariant(self);
        }
        cstr_to_str(vstd::slice::slice_subrange(self.raw, DISPLAY_VERSION_OFFSET, DISPLAY_VERSION_OFFSET + 0x10))
    }

    /// The language entry for `lang`: its own slot when set, otherwise the
    /// first set entry; `None` when no entry is set.
    pub fn language_entry_for(&self, lang: SetLanguage) -> (r: Option<NacpLanguageEntry<'a>>)
        ensures
            match entry_for(self@, lang) {
                Some(i) => r matches Some(e) && e.name@ == entry_name(self@, i) && e.author@
                    == entry_author(self@, i),
                None => r is None,
            },
    {
        proof {
            use_type_invariant(self);
        }
        let idx = language_table(lang);
        if let Some(entry) = self.language_entry(idx) {
            return Some(entry);
        }
        let mut i: usize = 0;
        while i < 16
            invariant
                i <= 16,
                self@.len() == 0x4000,
                !entry_present(self@, language_slot(lang)),
                first_present(self@, 0) == first_present(self@, i as int),
            decreases 16 - i,
        {
            if let Some(entry) = self.language_entry(i) {
                return Some(entry);
            }
            i = i + 1;
        }
        None
    }
}

/// The language entry slot of `lang`.
fn language_table(lang: SetLanguage) -> (r: usize)
    ensures
        r == language_slot(lang),
{
    match lang {
        SetLanguage::JA => 2,
        SetLanguage::ENUS => 0,
        SetLanguage::FR => 3,
        SetLanguage::DE => 4,
        SetLanguage::IT => 7,
        SetLanguage::ES => 6,
        SetLanguage::ZHCN => 14,
        SetLanguage::KO => 12,
        SetLanguage::NL => 8,
        SetLanguage::PT => 10,
        SetLanguage::RU => 11,
        SetLanguage::ZHTW => 13,
        SetLanguage::ENGB => 1,
        SetLanguage::FRCA => 9,
        SetLanguage::ES419 => 5,
        SetLanguage::ZHHANS => 14,
        SetLanguage::ZHHANT => 13,
        SetLanguage::PTBR => 15,
    }
}

/// The string in a null-terminated field: the bytes up to the first zero,
/// or empty when they are not valid UTF-8.
pub fn cstr_to_str<'b>(bytes: &'b [u8]) -> (r: &'b str)
    ensures
        r.spec_bytes() == stored_name(cstr(bytes@)),
{
    let len = cstr_len(bytes);
    read_name(vstd::slice::slice_subrange(bytes, 0, len))
}

} // verus!
