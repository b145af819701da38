//! Identifiers, timestamps, encryption descriptions and errors shared by the
//! pool's components.
use vstd::prelude::*;

verus! {

/// The identifier of a pool: an opaque 128-bit value.
#[derive(Debug, Clone, Copy, PartialEq, Eq, Structural, Hash)]
pub struct PoolUuid(pub u128);

/// The identifier of one member device of a pool: an opaque 128-bit value.
#[derive(Debug, Clone, Copy, PartialEq, Eq, Structural, Hash)]
pub struct DevUuid(pub u128);

/// A point in time, in nanoseconds since the Unix epoch.
#[derive(Debug, Clone, Copy, PartialEq, Eq, Structural)]
pub struct Timestamp {
    pub nanos: i128,
}

/// A network key-escrow binding: the pin and its JSON configuration, held
/// as serde_json's compact text of the configuration value.
#[derive(Debug, Clone)]
pub struct ClevisInfo {
    pub pin: String,
    pub config: String,
}

/// How the members of an encrypted pool are unlocked: a key in the kernel
/// keyring, and optionally a key-escrow binding.
#[derive(Debug, Clone)]
pub struct EncryptionInfo {
    pub key_description: String,
    pub clevis_info: Option<ClevisInfo>,
}

/// The mathematical value of an `EncryptionInfo`.
pub struct EncryptionInfoView {
    pub key_description: Seq<char>,
    pub clevis_info: Option<(Seq<char>, Seq<char>)>,
}

impl View for ClevisInfo {
    type V = (Seq<char>, Seq<char>);

    open spec fn view(&self) -> (Seq<char>, Seq<char>) {
        (self.pin@, self.config@)
    }
}

impl View for EncryptionInfo {
    type V = EncryptionInfoView;

    open spec fn view(&self) -> EncryptionInfoView {
        EncryptionInfoView {
            key_description: self.key_description@,
            clevis_info: match self.clevis_info {
                Some(c) => Some(c@),
                None => None,
            },
        }
    }
}

/// The view of an optional encryption description.
pub open spec fn enc_view(e: Option<EncryptionInfo>) -> Option<EncryptionInfoView> {
    match e {
        Some(i) => Some(i@),
        None => None,
    }
}

pub fn clevis_info_eq(a: &ClevisInfo, b: &ClevisInfo) -> (r: bool)
    ensures
        r == (a@ == b@),
{
    a.pin == b.pin && a.config == b.config
}

/// A copy of an optional encryption description.
pub fn clone_encryption(e: &Option<EncryptionInfo>) -> (r: Option<EncryptionInfo>)
    ensures
        enc_view(r) == enc_view(*e),
{
    match e {
        None => None,
        Some(i) => {
            let clevis_info = match &i.clevis_info {
                None => None,
                Some(c) => Some(ClevisInfo { pin: c.pin.clone(), config: c.config.clone() }),
            };
            Some(EncryptionInfo { key_description: i.key_description.clone(), clevis_info })
        },
    }
}

/// Whether two optional encryption descriptions are the same.
pub fn encryption_info_eq(a: &Option<EncryptionInfo>, b: &Option<EncryptionInfo>) -> (r: bool)
    ensures
        r == (enc_view(*a) == enc_view(*b)),
{
    match (a, b) {
        (None, None) => true,
        (Some(x), Some(y)) => {
            if x.key_description != y.key_description {
                return false;
            }
            match (&x.clevis_info, &y.clevis_info) {
                (None, None) => true,
                (Some(c), Some(d)) => clevis_info_eq(c, d),
                _ => false,
            }
        },
        _ => false,
    }
}

/// The fewest bytes of pool metadata that a member's metadata slot holds.
pub const MIN_MDA_DATA_SIZE: u64 = 266_240;

/// The most bytes of pool metadata that a member's metadata slot may hold.
pub const MAX_MDA_DATA_SIZE: u64 = 67_108_864;

/// Sectors at the front of a member that hold its static headers.
pub const STATIC_HEADER_SECTORS: u64 = 16;

/// The number of metadata regions in a member's reserved area.
pub const NUM_MDA_REGIONS: u64 = 4;

/// The size of the reserved metadata area of a member whose metadata slots
/// hold `bytes` bytes: the static headers and four regions of whole sectors.
pub open spec fn reserved_sectors(bytes: nat) -> nat {
    (STATIC_HEADER_SECTORS + NUM_MDA_REGIONS * ((bytes + 511) / 512)) as nat
}

/// The capacity of one metadata slot, in bytes.
#[derive(Debug, Clone, Copy, PartialEq, Eq, Structural)]
pub struct MDADataSize {
    bytes: u64,
}

impl MDADataSize {
    pub closed spec fn spec_bytes(&self) -> nat {
        self.bytes as nat
    }

    pub open spec fn wf(&self) -> bool {
        MIN_MDA_DATA_SIZE <= self.spec_bytes() <= MAX_MDA_DATA_SIZE
    }

    /// A slot capacity of `bytes`, raised to the minimum; `None` above the
    /// maximum.
    pub fn new(bytes: u64) -> (r: Option<MDADataSize>)
        ensures
            bytes > MAX_MDA_DATA_SIZE ==> r is None,
            bytes <= MAX_MDA_DATA_SIZE ==> r is Some && r.unwrap().wf() && r.unwrap().spec_bytes()
                == if bytes < MIN_MDA_DATA_SIZE { MIN_MDA_DATA_SIZE } else { bytes },
    {
        if bytes > MAX_MDA_DATA_SIZE {
            None
        } else if bytes < MIN_MDA_DATA_SIZE {
            Some(MDADataSize { bytes: MIN_MDA_DATA_SIZE })
        } else {
            Some(MDADataSize { bytes })
        }
    }

    /// The minimum slot capacity.
    pub fn default() -> (r: MDADataSize)
        ensures
            r.wf(),
            r.spec_bytes() == MIN_MDA_DATA_SIZE,
    {
        MDADataSize { bytes: MIN_MDA_DATA_SIZE }
    }

    pub fn bytes(&self) -> (r: u64)
        ensures
            r == self.spec_bytes(),
    {
        self.bytes
    }

    /// The sectors that a member reserves for metadata with this capacity.
    pub fn reserved(&self) -> (r: u64)
        requires
            self.wf(),
        ensures
            r == reserved_sectors(self.spec_bytes()),
    {
        STATIC_HEADER_SECTORS + NUM_MDA_REGIONS * ((self.bytes + 511) / 512)
    }
}

/// The kinds of failure of the pool's operations.
#[derive(Debug, Clone, Copy, PartialEq, Eq, Structural)]
pub enum StratisError {
    /// A precondition was violated by the caller: a wrong pool, a device
    /// that is already claimed, a key that does not unlock the pool.
    Invalid,
    /// A referenced member device is not in the pool.
    NotFound,
    /// An underlying device operation failed.
    Io,
    /// A device header failed its magic or checksum test.
    HeaderCorrupt,
    /// Setting up new members failed; what was written has been wiped.
    InitializationFailed,
    /// No member device accepted the pool metadata.
    NoMetadataTarget,
    /// Metadata is larger than a device's metadata region can hold.
    MetadataTooLarge,
    /// The pool is not encrypted.
    NotEncrypted,
    /// A different key-escrow binding is already present.
    BindingConflict,
    /// Removing the key-escrow binding failed on some member.
    PartialUnbind,
    /// Members disagree on their encryption description.
    EncryptionMismatch,
}

} // verus!
