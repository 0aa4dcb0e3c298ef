//! NACP structure (0x4000 bytes).

use vstd::prelude::*;

use crate::bytes::{read_array, read_u32, read_u64, u32_of, u64_of};

verus! {

/// Language-specific title and publisher information; a NACP holds 16.
#[derive(Debug, Clone, Copy)]
pub struct NacpLanguageEntry {
    /// Application name (UTF-8, null-terminated)
    pub name: [u8; 0x200],
    /// Publisher/developer name (UTF-8, null-terminated)
    pub author: [u8; 0x100],
}

/// Local wireless neighbor detection group configuration.
#[derive(Debug, Clone, Copy)]
pub struct NacpNeighborDetectionGroupConfig {
    /// Group identifier
    pub group_id: u64,
    /// Encryption key for the group
    pub key: [u8; 0x10],
}

/// Local wireless neighbor detection client configuration: the group this
/// client sends to and up to 16 groups it receives from.
#[derive(Debug, Clone, Copy)]
pub struct NacpNeighborDetectionClientConfig {
    /// Configuration for the group this client sends to
    pub send_group_config: NacpNeighborDetectionGroupConfig,
    /// Array of up to 16 groups this client can receive from
    pub receivable_group_configs: [NacpNeighborDetectionGroupConfig; 0x10],
}

/// Just-In-Time compilation configuration.
#[derive(Debug, Clone, Copy, PartialEq, Eq, Structural)]
pub struct NacpJitConfiguration {
    /// JIT flags
    pub flags: u64,
    /// Maximum JIT memory size in bytes
    pub memory_size: u64,
}

/// The application control property structure: titles, ratings, save data
/// configuration and system capabilities.
#[derive(Debug, Clone, Copy)]
pub struct NacpStruct {
    /// Array of 16 language entries (title/author per language)
    pub lang: [NacpLanguageEntry; 16],
    /// ISBN code (null-terminated string)
    pub isbn: [u8; 0x25],
    /// Startup user account mode
    pub startup_user_account: u8,
    /// User account switch lock mode
    pub user_account_switch_lock: u8,
    /// Add-on content registration type
    pub add_on_content_registration_type: u8,
    /// Application attribute flags
    pub attribute_flag: u32,
    /// Supported language flags (bitmask)
    pub supported_language_flag: u32,
    /// Parental control flags
    pub parental_control_flag: u32,
    /// Screenshot permission
    pub screenshot: u8,
    /// Video capture permission
    pub video_capture: u8,
    /// Data loss confirmation requirement
    pub data_loss_confirmation: u8,
    /// Play log policy
    pub play_log_policy: u8,
    /// Presence group ID for online features
    pub presence_group_id: u64,
    /// Age rating values per region (0x20 regions)
    pub rating_age: [i8; 0x20],
    /// Display version string (null-terminated UTF-8)
    pub display_version: [u8; 0x10],
    /// Base ID for add-on content
    pub add_on_content_base_id: u64,
    /// Save data owner ID
    pub save_data_owner_id: u64,
    /// User account save data size in bytes
    pub user_account_save_data_size: u64,
    /// User account save data journal size in bytes
    pub user_account_save_data_journal_size: u64,
    /// Device save data size in bytes
    pub device_save_data_size: u64,
    /// Device save data journal size in bytes
    pub device_save_data_journal_size: u64,
    /// BCAT delivery cache storage size in bytes
    pub bcat_delivery_cache_storage_size: u64,
    /// Application error code category string (as u64)
    pub application_error_code_category: u64,
    /// Array of up to 8 local communication IDs
    pub local_communication_id: [u64; 0x8],
    /// Logo type
    pub logo_type: u8,
    /// Logo handling mode
    pub logo_handling: u8,
    /// Runtime add-on content install permission
    pub runtime_add_on_content_install: u8,
    /// Runtime parameter delivery permission
    pub runtime_parameter_delivery: u8,
    /// Crash report mode
    pub crash_report: u8,
    /// HDCP mode
    pub hdcp: u8,
    /// Pseudo device ID seed
    pub pseudo_device_id_seed: u64,
    /// BCAT passphrase (null-terminated string)
    pub bcat_passphrase: [u8; 0x41],
    /// Startup user account option flags
    pub startup_user_account_option: u8,
    /// Maximum user account save data size in bytes
    pub user_account_save_data_size_max: u64,
    /// Maximum user account save data journal size in bytes
    pub user_account_save_data_journal_size_max: u64,
    /// Maximum device save data size in bytes
    pub device_save_data_size_max: u64,
    /// Maximum device save data journal size in bytes
    pub device_save_data_journal_size_max: u64,
    /// Temporary storage size in bytes
    pub temporary_storage_size: u64,
    /// Cache storage size in bytes
    pub cache_storage_size: u64,
    /// Cache storage journal size in bytes
    pub cache_storage_journal_size: u64,
    /// Maximum combined cache storage data and journal size
    pub cache_storage_data_and_journal_size_max: u64,
    /// Maximum cache storage index
    pub cache_storage_index_max: u16,
    /// Array of up to 16 queryable application IDs for play log
    pub play_log_queryable_application_id: [u64; 0x10],
    /// Play log query capability
    pub play_log_query_capability: u8,
    /// Repair flags
    pub repair_flag: u8,
    /// Program index within multi-program applications
    pub program_index: u8,
    /// Requirement for network service license on launch
    pub required_network_service_license_on_launch: u8,
    /// Local wireless neighbor detection configuration
    pub neighbor_detection_client_config: NacpNeighborDetectionClientConfig,
    /// JIT compilation configuration
    pub jit_configuration: NacpJitConfiguration,
}

/// Whether `e` holds the language entry at `at`: a 0x200-byte name, then a
/// 0x100-byte author.
pub open spec fn language_entry_is(e: NacpLanguageEntry, b: Seq<u8>, at: int) -> bool {
    &&& e.name@ == b.subrange(at, at + 0x200)
    &&& e.author@ == b.subrange(at + 0x200, at + 0x300)
}

/// Whether `g` holds the group configuration at `at`: an 8-byte ID, then a
/// 16-byte key.
pub open spec fn group_config_is(g: NacpNeighborDetectionGroupConfig, b: Seq<u8>, at: int) -> bool {
    &&& g.group_id == u64_of(b, at)
    &&& g.key@ == b.subrange(at + 8, at + 0x18)
}

/// Whether `c` holds the client configuration at `at`: the send group, then
/// the 16 receivable groups, 0x18 bytes each.
pub open spec fn client_config_is(c: NacpNeighborDetectionClientConfig, b: Seq<u8>, at: int) -> bool {
    &&& group_config_is(c.send_group_config, b, at)
    &&& forall|i: int|
        0 <= i < 16 ==> group_config_is(#[trigger] c.receivable_group_configs@[i], b, at + 0x18 + 0x18 * i)
}

/// The JIT configuration at `at`.
pub open spec fn jit_configuration_at(b: Seq<u8>, at: int) -> NacpJitConfiguration {
    NacpJitConfiguration { flags: u64_of(b, at), memory_size: u64_of(b, at + 8) }
}

/// The little-endian 16-bit word at `at`.
pub open spec fn u16_of(b: Seq<u8>, at: int) -> u16 {
    (b[at] + 0x100 * b[at + 1]) as u16
}

/// Whether `s` holds the fields of the NACP structure in `b`, each decoded at
/// its offset; the reserved stretches (0x30F4, 0x3142, 0x318A, 0x3214 and
/// 0x33C0 on) are not fields.
pub open spec fn nacp_struct_is(s: NacpStruct, b: Seq<u8>) -> bool {
    &&& forall|i: int| 0 <= i < 16 ==> language_entry_is(#[trigger] s.lang@[i], b, 0x300 * i)
    &&& s.isbn@ == b.subrange(0x3000, 0x3025)
    &&& s.startup_user_account == b[0x3025]
    &&& s.user_account_switch_lock == b[0x3026]
    &&& s.add_on_content_registration_type == b[0x3027]
    &&& s.attribute_flag == u32_of(b, 0x3028)
    &&& s.supported_language_flag == u32_of(b, 0x302C)
    &&& s.parental_control_flag == u32_of(b, 0x3030)
    &&& s.screenshot == b[0x3034]
    &&& s.video_capture == b[0x3035]
    &&& s.data_loss_confirmation == b[0x3036]
    &&& s.play_log_policy == b[0x3037]
    &&& s.presence_group_id == u64_of(b, 0x3038)
    &&& forall|i: int| 0 <= i < 0x20 ==> #[trigger] s.rating_age@[i] == b[0x3040 + i] as i8
    &&& s.display_version@ == b.subrange(0x3060, 0x3070)
    &&& s.add_on_content_base_id == u64_of(b, 0x3070)
    &&& s.save_data_owner_id == u64_of(b, 0x3078)
    &&& s.user_account_save_data_size == u64_of(b, 0x3080)
    &&& s.user_account_save_data_journal_size == u64_of(b, 0x3088)
    &&& s.device_save_data_size == u64_of(b, 0x3090)
    &&& s.device_save_data_journal_size == u64_of(b, 0x3098)
    &&& s.bcat_delivery_cache_storage_size == u64_of(b, 0x30A0)
    &&& s.application_error_code_category == u64_of(b, 0x30A8)
    &&& forall|i: int| 0 <= i < 8 ==> #[trigger] s.local_communication_id@[i] == u64_of(b, 0x30B0 + 8 * i)
    &&& s.logo_type == b[0x30F0]
    &&& s.logo_handling == b[0x30F1]
    &&& s.runtime_add_on_content_install == b[0x30F2]
    &&& s.runtime_parameter_delivery == b[0x30F3]
    &&& s.crash_report == b[0x30F6]
    &&& s.hdcp == b[0x30F7]
    &&& s.pseudo_device_id_seed == u64_of(b, 0x30F8)
    &&& s.bcat_passphrase@ == b.subrange(0x3100, 0x3141)
    &&& s.startup_user_account_option == b[0x3141]
    &&& s.user_account_save_data_size_max == u64_of(b, 0x3148)
    &&& s.user_account_save_data_journal_size_max == u64_of(b, 0x3150)
    &&& s.device_save_data_size_max == u64_of(b, 0x3158)
    &&& s.device_save_data_journal_size_max == u64_of(b, 0x3160)
    &&& s.temporary_storage_size == u64_of(b, 0x3168)
    &&& s.cache_storage_size == u64_of(b, 0x3170)
    &&& s.cache_storage_journal_size == u64_of(b, 0x3178)
    &&& s.cache_storage_data_and_journal_size_max == u64_of(b, 0x3180)
    &&& s.cache_storage_index_max == u16_of(b, 0x3188)
    &&& forall|i: int|
        0 <= i < 16 ==> #[trigger] s.play_log_queryable_application_id@[i] == u64_of(b, 0x3190 + 8 * i)
    &&& s.play_log_query_capability == b[0x3210]
    &&& s.repair_flag == b[0x3211]
    &&& s.program_index == b[0x3212]
    &&& s.required_network_service_license_on_launch == b[0x3213]
    &&& client_config_is(s.neighbor_detection_client_config, b, 0x3218)
    &&& s.jit_configuration == jit_configuration_at(b, 0x33B0)
}

/// Decodes the language entry at `at`.
pub fn read_language_entry(b: &[u8], at: usize) -> (r: NacpLanguageEntry)
    requires
        at + 0x300 <= b.len(),
    ensures
        language_entry_is(r, b@, at as int),
{
    NacpLanguageEntry { name: read_array(b, at), author: read_array(b, at + 0x200) }
}

/// Decodes the group configuration at `at`.
pub fn read_group_config(b: &[u8], at: usize) -> (r: NacpNeighborDetectionGroupConfig)
    requires
        at + 0x18 <= b.len(),
    ensures
        group_config_is(r, b@, at as int),
{
    NacpNeighborDetectionGroupConfig { group_id: read_u64(b, at), key: read_array(b, at + 8) }
}

/// Decodes the client configuration at `at`.
pub fn read_client_config(b: &[u8], at: usize) -> (r: NacpNeighborDetectionClientConfig)
    requires
        at + 0x198 <= b.len(),
    ensures
        client_config_is(r, b@, at as int),
{
    let send = read_group_config(b, at);
    let mut groups = [send; 0x10];
    let mut i: usize = 0;
    while i < 0x10
        invariant
            i <= 0x10,
            at + 0x198 <= b.len(),
            groups@.len() == 0x10,
            forall|j: int| 0 <= j < i ==> group_config_is(#[trigger] groups@[j], b@, at + 0x18 + 0x18 * j),
        decreases 0x10 - i,
    {
        groups.set(i, read_group_config(b, at + 0x18 + 0x18 * i));
        i = i + 1;
    }
    NacpNeighborDetectionClientConfig { send_group_config: send, receivable_group_configs: groups }
}

/// Decodes `N` consecutive little-endian 64-bit words from `at`.
fn read_u64_words<const N: usize>(b: &[u8], at: usize) -> (r: [u64; N])
    requires
        at + 8 * N <= b.len(),
    ensures
        forall|i: int| 0 <= i < N ==> #[trigger] r@[i] == u64_of(b@, at + 8 * i),
{
    let mut a = [0u64; N];
    let mut i: usize = 0;
    while i < N
        invariant
            i <= N,
            at + 8 * N <= b.len(),
            a@.len() == N,
            forall|j: int| 0 <= j < i ==> #[trigger] a@[j] == u64_of(b@, at + 8 * j),
        decreases N - i,
    {
        a.set(i, read_u64(b, at + 8 * i));
        i = i + 1;
    }
    a
}

/// Decodes the NACP structure from the first 0x4000 bytes.
#[verifier::rlimit(40)]
pub fn read_nacp_struct(b: &[u8]) -> (r: NacpStruct)
    requires
        b.len() >= 0x4000,
    ensures
        nacp_struct_is(r, b@),
{
    let first = read_language_entry(b, 0);
    let mut lang = [first; 16];
    let mut i: usize = 0;
    while i < 16
        invariant
            i <= 16,
            b.len() >= 0x4000,
            lang@.len() == 16,
            forall|j: int| 0 <= j < i ==> language_entry_is(#[trigger] lang@[j], b@, 0x300 * j),
        decreases 16 - i,
    {
        lang.set(i, read_language_entry(b, 0x300 * i));
        i = i + 1;
    }
    let mut rating_age = [0i8; 0x20];
    let mut k: usize = 0;
    while k < 0x20
        invariant
            k <= 0x20,
            b.len() >= 0x4000,
            rating_age@.len() == 0x20,
            forall|j: int| 0 <= j < k ==> #[trigger] rating_age@[j] == b@[0x3040 + j] as i8,
        decreases 0x20 - k,
    {
        rating_age.set(k, b[0x3040 + k] as i8);
        k = k + 1;
    }
    NacpStruct {
        lang,
        isbn: read_array(b, 0x3000),
        startup_user_account: b[0x3025],
        user_account_switch_lock: b[0x3026],
        add_on_content_registration_type: b[0x3027],
        attribute_flag: read_u32(b, 0x3028),
        supported_language_flag: read_u32(b, 0x302C),
        parental_control_flag: read_u32(b, 0x3030),
        screenshot: b[0x3034],
        video_capture: b[0x3035],
        data_loss_confirmation: b[0x3036],
        play_log_policy: b[0x3037],
        presence_group_id: read_u64(b, 0x3038),
        rating_age,
        display_version: read_array(b, 0x3060),
        add_on_content_base_id: read_u64(b, 0x3070),
        save_data_owner_id: read_u64(b, 0x3078),
        user_account_save_data_size: read_u64(b, 0x3080),
        user_account_save_data_journal_size: read_u64(b, 0x3088),
        device_save_data_size: read_u64(b, 0x3090),
        device_save_data_journal_size: read_u64(b, 0x3098),
        bcat_delivery_cache_storage_size: read_u64(b, 0x30A0),
        application_error_code_category: read_u64(b, 0x30A8),
        local_communication_id: read_u64_words(b, 0x30B0),
        logo_type: b[0x30F0],
        logo_handling: b[0x30F1],
        runtime_add_on_content_install: b[0x30F2],
        runtime_parameter_delivery: b[0x30F3],
        crash_report: b[0x30F6],
        hdcp: b[0x30F7],
        pseudo_device_id_seed: read_u64(b, 0x30F8),
        bcat_passphrase: read_array(b, 0x3100),
        startup_user_account_option: b[0x3141],
        user_account_save_data_size_max: read_u64(b, 0x3148),
        user_account_save_data_journal_size_max: read_u64(b, 0x3150),
        device_save_data_size_max: read_u64(b, 0x3158),
        device_save_data_journal_size_max: read_u64(b, 0x3160),
        temporary_storage_size: read_u64(b, 0x3168),
        cache_storage_size: read_u64(b, 0x3170),
        cache_storage_journal_size: read_u64(b, 0x3178),
        cache_storage_data_and_journal_size_max: read_u64(b, 0x3180),
        cache_storage_index_max: (b[0x3188] as u16) + 0x100 * (b[0x3189] as u16),
        play_log_queryable_application_id: read_u64_words(b, 0x3190),
        play_log_query_capability: b[0x3210],
        repair_flag: b[0x3211],
        program_index: b[0x3212],
        required_network_service_license_on_launch: b[0x3213],
        neighbor_detection_client_config: read_client_config(b, 0x3218),
        jit_configuration: NacpJitConfiguration {
            flags: read_u64(b, 0x33B0),
            memory_size: read_u64(b, 0x33B8),
        },
    }
}

} // verus!
