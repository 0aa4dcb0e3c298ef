//! NACP (application control property) builder.
//!
//! The NACP is a fixed 0x4000-byte structure: sixteen language entries of a
//! name (0x200 bytes) and an author (0x100 bytes), followed by the
//! application's metadata fields.

use vstd::prelude::*;

use crate::bytes::{bytes_result, le32, le64, push4, push_all, push_repeat, push_u32, push_u64,
    push_zeros, repeat, zeros};
use crate::read::nacp::{entry_author, entry_name, language_slot, SetLanguage};

verus! {

/// Size of a NACP structure.
pub const NACP_SIZE: usize = 0x4000;

/// Room for a language entry's name.
pub const NAME_FIELD_SIZE: usize = 0x200;

/// Room for a language entry's author.
pub const AUTHOR_FIELD_SIZE: usize = 0x100;

/// Room for the display version.
pub const VERSION_FIELD_SIZE: usize = 0x10;

/// Default user account save data size (about 62 MB).
pub const DEFAULT_SAVE_DATA_SIZE: u64 = 0x3e0_0000;

/// Default user account save data journal size (1.5 MB).
pub const DEFAULT_SAVE_DATA_JOURNAL_SIZE: u64 = 0x18_0000;

/// Offset of the add-on content base ID from the application ID.
pub const ADD_ON_CONTENT_BASE_OFFSET: u64 = 0x1000;

/// Builder for NACP files.
pub struct NacpBuilder {
    names: Vec<Option<String>>,
    authors: Vec<Option<String>>,
    display_version: Option<String>,
    application_id: Option<u64>,
    save_data_owner_id: Option<u64>,
    user_account_save_data_size: Option<u64>,
    user_account_save_data_journal_size: Option<u64>,
}

/// What a [`NacpBuilder`] holds: a name and an author per language slot,
/// and the optional metadata.
pub struct NacpBuilderView {
    pub names: Seq<Option<Seq<char>>>,
    pub authors: Seq<Option<Seq<char>>>,
    pub display_version: Option<Seq<char>>,
    pub application_id: Option<u64>,
    pub save_data_owner_id: Option<u64>,
    pub user_account_save_data_size: Option<u64>,
    pub user_account_save_data_journal_size: Option<u64>,
}

/// The characters of an optional string.
pub open spec fn opt_chars(o: Option<String>) -> Option<Seq<char>> {
    match o {
        Some(s) => Some(s@),
        None => None,
    }
}

impl View for NacpBuilder {
    type V = NacpBuilderView;

    closed spec fn view(&self) -> NacpBuilderView {
        NacpBuilderView {
            names: self.names@.map_values(|o: Option<String>| opt_chars(o)),
            authors: self.authors@.map_values(|o: Option<String>| opt_chars(o)),
            display_version: opt_chars(self.display_version),
            application_id: self.application_id,
            save_data_owner_id: self.save_data_owner_id,
            user_account_save_data_size: self.user_account_save_data_size,
            user_account_save_data_journal_size: self.user_account_save_data_journal_size,
        }
    }
}

impl NacpBuilder {
    /// There is a name slot and an author slot for each of the sixteen
    /// language entries.
    #[verifier::type_invariant]
    spec fn slots_complete(self) -> bool {
        self.names@.len() == 16 && self.authors@.len() == 16
    }
}

/// Whether a builder view holds a name slot and an author slot for each of
/// the sixteen language entries, as every builder does.
pub open spec fn nacp_slots_complete(v: NacpBuilderView) -> bool {
    v.names.len() == 16 && v.authors.len() == 16
}

/// Errors of [`NacpBuilder::build`].
#[derive(Debug, PartialEq, Eq, Structural)]
pub enum BuildError {
    /// A name does not fit its 0x200-byte field with a terminating zero.
    NameTooLong {
        /// Language entry index (0-15)
        language_index: usize,
        /// Length in bytes
        len: usize,
    },
    /// An author does not fit its 0x100-byte field with a terminating zero.
    AuthorTooLong {
        /// Language entry index (0-15)
        language_index: usize,
        /// Length in bytes
        len: usize,
    },
    /// The display version does not fit its 0x10-byte field with a
    /// terminating zero.
    VersionTooLong {
        /// Length in bytes
        len: usize,
    },
    /// The output buffer does not have the NACP size; never produced.
    InternalBufferSizeError,
}

/// A builder with nothing set.
pub open spec fn nacp_builder_empty() -> NacpBuilderView {
    NacpBuilderView {
        names: Seq::new(16, |i: int| None),
        authors: Seq::new(16, |i: int| None),
        display_version: None,
        application_id: None,
        save_data_owner_id: None,
        user_account_save_data_size: None,
        user_account_save_data_journal_size: None,
    }
}

/// Length in bytes of the UTF-8 encoding of `s`.
pub open spec fn utf8_len(s: Seq<char>) -> nat {
    vstd::utf8::encode_utf8(s).len()
}

/// Whether an optional string has at least `max` bytes.
pub open spec fn too_long(o: Option<Seq<char>>, max: nat) -> bool {
    o matches Some(s) && utf8_len(s) >= max
}

/// The first error found checking language entries `i..16` (name before
/// author) and then the display version.
pub open spec fn nacp_error_from(v: NacpBuilderView, i: int) -> Option<BuildError>
    decreases 16 - i,
{
    if i < 0 || i >= 16 {
        if too_long(v.display_version, 0x10) {
            Some(BuildError::VersionTooLong { len: utf8_len(v.display_version.unwrap()) as usize })
        } else {
            None
        }
    } else if too_long(v.names[i], 0x200) {
        Some(
            BuildError::NameTooLong {
                language_index: i as usize,
                len: utf8_len(v.names[i].unwrap()) as usize,
            },
        )
    } else if too_long(v.authors[i], 0x100) {
        Some(
            BuildError::AuthorTooLong {
                language_index: i as usize,
                len: utf8_len(v.authors[i].unwrap()) as usize,
            },
        )
    } else {
        nacp_error_from(v, i + 1)
    }
}

/// A text field of `width` bytes: the UTF-8 string, zero-filled; all zeros
/// when unset.
pub open spec fn text_field(o: Option<Seq<char>>, width: nat) -> Seq<u8> {
    match o {
        Some(s) => vstd::utf8::encode_utf8(s) + zeros((width - utf8_len(s)) as nat),
        None => zeros(width),
    }
}

/// The first `k` language entries.
pub open spec fn nacp_lang_entries(names: Seq<Option<Seq<char>>>, authors: Seq<Option<Seq<char>>>, k: int) -> Seq<u8>
    decreases k,
{
    if k <= 0 {
        Seq::empty()
    } else {
        nacp_lang_entries(names, authors, k - 1) + text_field(names[k - 1], 0x200) + text_field(
            authors[k - 1],
            0x100,
        )
    }
}

/// The application ID, or 0 when unset.
pub open spec fn app_id_or_zero(v: NacpBuilderView) -> u64 {
    match v.application_id {
        Some(id) => id,
        None => 0,
    }
}

/// The settings between the language entries and the display version
/// (0x60 bytes): the ISBN area, startup user account 1, all sixteen
/// languages supported, data loss confirmation 1, the presence group ID and
/// every rating age unrated.
pub open spec fn nacp_settings_head(v: NacpBuilderView) -> Seq<u8> {
    let id = app_id_or_zero(v);
    zeros(0x25) + seq![1u8, 0u8, 0u8] + zeros(4) + le32(0xFFFF) + zeros(4) + seq![0u8, 0u8, 1u8, 0u8]
        + le64(id) + repeat(0xFF, 0x20)
}

/// The settings after the display version: the add-on content base ID, the
/// save data owner ID and sizes, the local communication IDs, the logo
/// settings, the pseudo device ID seed, then zeros up to 0x4000 bytes.
pub open spec fn nacp_settings_tail(v: NacpBuilderView) -> Seq<u8> {
    let id = app_id_or_zero(v);
    le64(
        match v.application_id {
            Some(a) => (a + ADD_ON_CONTENT_BASE_OFFSET) as u64,
            None => 0,
        },
    ) + le64(
        match v.save_data_owner_id {
            Some(o) => o,
            None => id,
        },
    ) + le64(
        match v.user_account_save_data_size {
            Some(s) => s,
            None => DEFAULT_SAVE_DATA_SIZE,
        },
    ) + le64(
        match v.user_account_save_data_journal_size {
            Some(s) => s,
            None => DEFAULT_SAVE_DATA_JOURNAL_SIZE,
        },
    ) + zeros(0x20) + le64(id) + le64(id) + zeros(0x30) + seq![2u8, 1u8] + zeros(6) + le64(id)
        + zeros(0xF00)
}

/// The 0x4000-byte NACP of a builder holding `v`: the language entries,
/// then startup user account 1, all sixteen languages supported, data loss
/// confirmation 1, every rating age 0xFF, the display version, the save data
/// sizes, logo type 2 and logo handling 1. A set application ID also gives
/// the presence group ID, the add-on content base ID (ID + 0x1000), the save
/// data owner ID (unless set itself), the first two local communication IDs
/// and the pseudo device ID seed.
pub open spec fn nacp_image(v: NacpBuilderView) -> Seq<u8> {
    nacp_lang_entries(v.names, v.authors, 16) + nacp_settings_head(v) + text_field(
        v.display_version,
        0x10,
    ) + nacp_settings_tail(v)
}

/// What [`NacpBuilder::build`] produces for a builder holding `v`.
pub open spec fn nacp_build_spec(v: NacpBuilderView) -> Result<Seq<u8>, BuildError> {
    match nacp_error_from(v, 0) {
        Some(e) => Err(e),
        None => Ok(nacp_image(v)),
    }
}

/// The language entry slot of `lang`; every language has one.
pub fn language_to_index(lang: SetLanguage) -> (r: Option<usize>)
    ensures
        r == Some(language_slot(lang) as usize),
{
    Some(
        match lang {
            SetLanguage::ENUS => 0,
            SetLanguage::ENGB => 1,
            SetLanguage::JA => 2,
            SetLanguage::FR => 3,
            SetLanguage::DE => 4,
            SetLanguage::ES419 => 5,
            SetLanguage::ES => 6,
            SetLanguage::IT => 7,
            SetLanguage::NL => 8,
            SetLanguage::FRCA => 9,
            SetLanguage::PT => 10,
            SetLanguage::RU => 11,
            SetLanguage::KO => 12,
            SetLanguage::ZHTW | SetLanguage::ZHHANT => 13,
            SetLanguage::ZHCN | SetLanguage::ZHHANS => 14,
            SetLanguage::PTBR => 15,
        },
    )
}

/// Sixteen copies of a string.
fn sixteen(s: &String) -> (r: Vec<Option<String>>)
    ensures
        r@.map_values(|o: Option<String>| opt_chars(o)) == Seq::new(16, |i: int| Some(s@)),
        r@.len() == 16,
{
    let mut r: Vec<Option<String>> = Vec::new();
    let mut i: usize = 0;
    while i < 16
        invariant
            i <= 16,
            r@.len() == i,
            forall|j: int| 0 <= j < i ==> opt_chars(#[trigger] r@[j]) == Some(s@),
        decreases 16 - i,
    {
        r.push(Some(s.clone()));
        i = i + 1;
    }
    assert(r@.map_values(|o: Option<String>| opt_chars(o)) =~= Seq::new(16, |i: int| Some(s@)));
    r
}

/// Appends a text field: the string's bytes, then zeros up to `width`.
fn push_text_field(out: &mut Vec<u8>, o: &Option<String>, width: usize)
    requires
        !too_long(opt_chars(*o), width as nat),
    ensures
        final(out)@ == old(out)@ + text_field(opt_chars(*o), width as nat),
{
    match o {
        Some(s) => {
            let b = s.as_str().as_bytes();
            push_all(out, b);
            push_zeros(out, width - b.len());
        },
        None => {
            push_zeros(out, width);
        },
    }
}

impl NacpBuilder {
    /// Create a builder with nothing set.
    pub fn new() -> (r: Self)
        ensures
            r@ == nacp_builder_empty(),
    {
        let mut names: Vec<Option<String>> = Vec::new();
        let mut authors: Vec<Option<String>> = Vec::new();
        let mut i: usize = 0;
        while i < 16
            invariant
                i <= 16,
                names@.len() == i,
                authors@.len() == i,
                forall|j: int| 0 <= j < i ==> #[trigger] names@[j] is None && authors@[j] is None,
            decreases 16 - i,
        {
            names.push(None);
            authors.push(None);
            i = i + 1;
        }
        let r = NacpBuilder {
            names,
            authors,
            display_version: None,
            application_id: None,
            save_data_owner_id: None,
            user_account_save_data_size: None,
            user_account_save_data_journal_size: None,
        };
        assert(r@.names =~= nacp_builder_empty().names);
        assert(r@.authors =~= nacp_builder_empty().authors);
        r
    }

    /// Set the application name for all languages.
    pub fn name(self, name: String) -> (r: Self)
        ensures
            r@ == (NacpBuilderView { names: Seq::new(16, |i: int| Some(name@)), ..self@ }),
    {
        let mut b = self;
        proof {
            use_type_invariant(&b);
        }
        b.names = sixteen(&name);
        b
    }

    /// Set the application name for one language.
    pub fn name_for_language(self, lang: SetLanguage, name: String) -> (r: Self)
        ensures
            r@ == (NacpBuilderView {
                names: self@.names.update(language_slot(lang), Some(name@)),
                ..self@
            }),
    {
        let mut b = self;
        proof {
            use_type_invariant(&b);
        }
        if let Some(idx) = language_to_index(lang) {
            let mut names = b.names;
            names.set(idx, Some(name));
            assert(names@.map_values(|o: Option<String>| opt_chars(o)) =~= self@.names.update(
                language_slot(lang),
                Some(name@),
            ));
            b = NacpBuilder { names, ..b };
        }
        b
    }

    /// Set the author (publisher) for all languages.
    pub fn author(self, author: String) -> (r: Self)
        ensures
            r@ == (NacpBuilderView { authors: Seq::new(16, |i: int| Some(author@)), ..self@ }),
    {
        let mut b = self;
        proof {
            use_type_invariant(&b);
        }
        b.authors = sixteen(&author);
        b
    }

    /// Set the author (publisher) for one language.
    pub fn author_for_language(self, lang: SetLanguage, author: String) -> (r: Self)
        ensures
            r@ == (NacpBuilderView {
                authors: self@.authors.update(language_slot(lang), Some(author@)),
                ..self@
            }),
    {
        let mut b = self;
        proof {
            use_type_invariant(&b);
        }
        if let Some(idx) = language_to_index(lang) {
            let mut authors = b.authors;
            authors.set(idx, Some(author));
            assert(authors@.map_values(|o: Option<String>| opt_chars(o)) =~= self@.authors.update(
                language_slot(lang),
                Some(author@),
            ));
            b = NacpBuilder { authors, ..b };
        }
        b
    }

    /// Set the display version string.
    pub fn version(self, version: String) -> (r: Self)
        ensures
            r@ == (NacpBuilderView { display_version: Some(version@), ..self@ }),
    {
        let mut b = self;
        proof {
            use_type_invariant(&b);
        }
        b.display_version = Some(version);
        b
    }

    /// Set the application ID.
    pub fn application_id(self, id: u64) -> (r: Self)
        ensures
            r@ == (NacpBuilderView { application_id: Some(id), ..self@ }),
    {
        let mut b = self;
        proof {
            use_type_invariant(&b);
        }
        b.application_id = Some(id);
        b
    }

    /// Set the save data owner ID.
    pub fn save_data_owner_id(self, id: u64) -> (r: Self)
        ensures
            r@ == (NacpBuilderView { save_data_owner_id: Some(id), ..self@ }),
    {
        let mut b = self;
        proof {
            use_type_invariant(&b);
        }
        b.save_data_owner_id = Some(id);
        b
    }

    /// Set the user account save data size in bytes.
    pub fn user_account_save_data_size(self, size: u64) -> (r: Self)
        ensures
            r@ == (NacpBuilderView { user_account_save_data_size: Some(size), ..self@ }),
    {
        let mut b = self;
        proof {
            use_type_invariant(&b);
        }
        b.user_account_save_data_size = Some(size);
        b
    }

    /// Set the user account save data journal size in bytes.
    pub fn user_account_save_data_journal_size(self, size: u64) -> (r: Self)
        ensures
            r@ == (NacpBuilderView { user_account_save_data_journal_size: Some(size), ..self@ }),
    {
        let mut b = self;
        proof {
            use_type_invariant(&b);
        }
        b.user_account_save_data_journal_size = Some(size);
        b
    }

    /// Build the 0x4000-byte NACP.
    ///
    /// Fails on the first name (0x200 bytes or more), author (0x100 or more)
    /// or display version (0x10 or more) that leaves no room for its
    /// terminating zero, checking entry by entry, name before author.
    pub fn build(self) -> (r: Result<Vec<u8>, BuildError>)
        requires
            self@.application_id matches Some(id) ==> id + ADD_ON_CONTENT_BASE_OFFSET <= u64::MAX,
        ensures
            bytes_result(r) == nacp_build_spec(self@),
            nacp_slots_complete(self@),
            r matches Ok(b) ==> b@.len() == NACP_SIZE,
            !(r matches Err(BuildError::InternalBufferSizeError)),
    {
        proof {
            use_type_invariant(&self);
        }
        let ghost v = self@;
        proof {
            lemma_no_buffer_error(v, 0);
            if nacp_error_from(v, 0) is None {
                lemma_built_nacp_fields(v, 0);
            }
        }
        let mut i: usize = 0;
        while i < 16
            invariant
                i <= 16,
                v == self@,
                self.names@.len() == 16,
                self.authors@.len() == 16,
                nacp_error_from(v, 0) == nacp_error_from(v, i as int),
            decreases 16 - i,
        {
            assert(v.names[i as int] == opt_chars(self.names@[i as int]));
            assert(v.authors[i as int] == opt_chars(self.authors@[i as int]));
            if let Some(name) = &self.names[i] {
                let len = name.as_str().as_bytes().len();
                if len >= NAME_FIELD_SIZE {
                    return Err(BuildError::NameTooLong { language_index: i, len });
                }
            }
            if let Some(author) = &self.authors[i] {
                let len = author.as_str().as_bytes().len();
                if len >= AUTHOR_FIELD_SIZE {
                    return Err(BuildError::AuthorTooLong { language_index: i, len });
                }
            }
            i = i + 1;
        }
        if let Some(version) = &self.display_version {
            let len = version.as_str().as_bytes().len();
            if len >= VERSION_FIELD_SIZE {
                return Err(BuildError::VersionTooLong { len });
            }
        }
        Ok(self.emit())
    }

    /// Lays out a validated builder.
    fn emit(&self) -> (r: Vec<u8>)
        requires
            nacp_error_from(self@, 0) is None,
            self@.application_id matches Some(id) ==> id + ADD_ON_CONTENT_BASE_OFFSET <= u64::MAX,
        ensures
            r@ == nacp_image(self@),
    {
        proof {
            use_type_invariant(self);
        }
        let ghost v = self@;
        let mut out: Vec<u8> = Vec::new();
        let mut i: usize = 0;
        while i < 16
            invariant
                i <= 16,
                v == self@,
                self.names@.len() == 16,
                self.authors@.len() == 16,
                nacp_error_from(v, i as int) is None,
                out@ == nacp_lang_entries(v.names, v.authors, i as int),
            decreases 16 - i,
        {
            assert(v.names[i as int] == opt_chars(self.names@[i as int]));
            assert(v.authors[i as int] == opt_chars(self.authors@[i as int]));
            push_text_field(&mut out, &self.names[i], NAME_FIELD_SIZE);
            push_text_field(&mut out, &self.authors[i], AUTHOR_FIELD_SIZE);
            i = i + 1;
        }
        let id = match self.application_id {
            Some(a) => a,
            None => 0,
        };
        let mut head: Vec<u8> = Vec::new();
        // ISBN, then startup user account 1.
        push_zeros(&mut head, 0x25);
        push_u8x3(&mut head, 1, 0, 0);
        push_zeros(&mut head, 4);
        // All sixteen languages supported.
        push_u32(&mut head, 0xFFFF);
        push_zeros(&mut head, 4);
        // Data loss confirmation 1.
        push4(&mut head, 0, 0, 1, 0);
        push_u64(&mut head, id);
        // Unrated in every region.
        push_repeat(&mut head, 0xFF, 0x20);
        assert(head@ =~= nacp_settings_head(v));
        push_all(&mut out, head.as_slice());
        push_text_field(&mut out, &self.display_version, VERSION_FIELD_SIZE);
        let mut tail: Vec<u8> = Vec::new();
        let add_on_base = match self.application_id {
            Some(a) => a + ADD_ON_CONTENT_BASE_OFFSET,
            None => 0,
        };
        push_u64(&mut tail, add_on_base);
        push_u64(
            &mut tail,
            match self.save_data_owner_id {
                Some(o) => o,
                None => id,
            },
        );
        push_u64(
            &mut tail,
            match self.user_account_save_data_size {
                Some(s) => s,
                None => DEFAULT_SAVE_DATA_SIZE,
            },
        );
        push_u64(
            &mut tail,
            match self.user_account_save_data_journal_size {
                Some(s) => s,
                None => DEFAULT_SAVE_DATA_JOURNAL_SIZE,
            },
        );
        push_zeros(&mut tail, 0x20);
        // The first two local communication IDs.
        push_u64(&mut tail, id);
        push_u64(&mut tail, id);
        push_zeros(&mut tail, 0x30);
        // Logo type 2, logo handling 1.
        tail.push(2);
        tail.push(1);
        push_zeros(&mut tail, 6);
        // Pseudo device ID seed.
        push_u64(&mut tail, id);
        push_zeros(&mut tail, 0xF00);
        assert(tail@ =~= nacp_settings_tail(v));
        push_all(&mut out, tail.as_slice());
        assert(out@ == nacp_image(v));
        out
    }
}

/// Appends three bytes.
fn push_u8x3(out: &mut Vec<u8>, a: u8, b: u8, c: u8)
    ensures
        final(out)@ == old(out)@ + seq![a, b, c],
{
    out.push(a);
    out.push(b);
    out.push(c);
    assert(final(out)@ =~= old(out)@ + seq![a, b, c]);
}

impl Default for NacpBuilder {
    fn default() -> (r: Self)
        ensures
            r@ == nacp_builder_empty(),
    {
        Self::new()
    }
}


/// With no field too long, the check finds nothing from `i` on: every
/// entry from `i` fits, and so does the display version.
proof fn lemma_no_error_fits(v: NacpBuilderView, i: int)
    requires
        0 <= i <= 16,
        nacp_error_from(v, i) is None,
    ensures
        forall|j: int| i <= j < 16 ==> !too_long(#[trigger] v.names[j], 0x200) && !too_long(v.authors[j], 0x100),
        !too_long(v.display_version, 0x10),
    decreases 16 - i,
{
    if i < 16 {
        lemma_no_error_fits(v, i + 1);
    }
}

/// A field that fits is exactly `width` bytes long.
proof fn lemma_text_field_len(o: Option<Seq<char>>, width: nat)
    requires
        !too_long(o, width),
    ensures
        text_field(o, width).len() == width,
{
}

/// The first `k` entries, when every field fits: `0x300` bytes each, each
/// holding its name field then its author field.
proof fn lemma_lang_entries(names: Seq<Option<Seq<char>>>, authors: Seq<Option<Seq<char>>>, k: int)
    requires
        0 <= k <= names.len(),
        k <= authors.len(),
        forall|j: int| 0 <= j < k ==> !too_long(#[trigger] names[j], 0x200) && !too_long(authors[j], 0x100),
    ensures
        nacp_lang_entries(names, authors, k).len() == 0x300 * k,
        forall|j: int| 0 <= j < k ==> {
            &&& #[trigger] nacp_lang_entries(names, authors, k).subrange(0x300 * j, 0x300 * j + 0x200)
                == text_field(names[j], 0x200)
            &&& nacp_lang_entries(names, authors, k).subrange(0x300 * j + 0x200, 0x300 * j + 0x300)
                == text_field(authors[j], 0x100)
        },
    decreases k,
{
    if k > 0 {
        lemma_lang_entries(names, authors, k - 1);
        let e = nacp_lang_entries(names, authors, k - 1);
        let n = text_field(names[k - 1], 0x200);
        let a = text_field(authors[k - 1], 0x100);
        lemma_text_field_len(names[k - 1], 0x200);
        lemma_text_field_len(authors[k - 1], 0x100);
        let all = e + n + a;
        assert forall|j: int| 0 <= j < k implies {
            &&& #[trigger] all.subrange(0x300 * j, 0x300 * j + 0x200) == text_field(names[j], 0x200)
            &&& all.subrange(0x300 * j + 0x200, 0x300 * j + 0x300) == text_field(authors[j], 0x100)
        } by {
            if j < k - 1 {
                assert(all.subrange(0x300 * j, 0x300 * j + 0x200) =~= e.subrange(0x300 * j, 0x300 * j + 0x200));
                assert(all.subrange(0x300 * j + 0x200, 0x300 * j + 0x300) =~= e.subrange(
                    0x300 * j + 0x200,
                    0x300 * j + 0x300,
                ));
            } else {
                assert(all.subrange(0x300 * j, 0x300 * j + 0x200) =~= n);
                assert(all.subrange(0x300 * j + 0x200, 0x300 * j + 0x300) =~= a);
            }
        }
    }
}

/// A NACP written by the builder holds what was set where the reader looks:
/// the image is 0x4000 bytes, each language entry's name and author fields
/// hold the builder's strings zero-filled, and so does the display version
/// field.
pub proof fn lemma_built_nacp_fields(v: NacpBuilderView, i: int)
    requires
        v.names.len() == 16,
        v.authors.len() == 16,
        nacp_error_from(v, 0) is None,
        0 <= i < 16,
    ensures
        nacp_image(v).len() == NACP_SIZE,
        entry_name(nacp_image(v), i) == text_field(v.names[i], 0x200),
        entry_author(nacp_image(v), i) == text_field(v.authors[i], 0x100),
        nacp_image(v).subrange(0x3060, 0x3070) == text_field(v.display_version, 0x10),
{
    lemma_no_error_fits(v, 0);
    lemma_lang_entries(v.names, v.authors, 16);
    lemma_text_field_len(v.display_version, 0x10);
    let e = nacp_lang_entries(v.names, v.authors, 16);
    let h = nacp_settings_head(v);
    let tf = text_field(v.display_version, 0x10);
    let t = nacp_settings_tail(v);
    let b = nacp_image(v);
    assert(b == e + h + tf + t);
    assert(h.len() == 0x60);
    assert(t.len() == 0xF90);
    assert(b.subrange(0x300 * i, 0x300 * i + 0x200) =~= e.subrange(0x300 * i, 0x300 * i + 0x200));
    assert(b.subrange(0x300 * i + 0x200, 0x300 * i + 0x300) =~= e.subrange(
        0x300 * i + 0x200,
        0x300 * i + 0x300,
    ));
    assert(b.subrange(0x3060, 0x3070) =~= tf);
}

/// The checks of a build never report a buffer of the wrong size.
proof fn lemma_no_buffer_error(v: NacpBuilderView, i: int)
    ensures
        !(nacp_error_from(v, i) matches Some(BuildError::InternalBufferSizeError)),
    decreases 16 - i,
{
    if 0 <= i < 16 {
        lemma_no_buffer_error(v, i + 1);
    }
}

} // verus!
