//! What is known of a candidate device before it joins a pool, and the
//! rules that decide which candidates may join.
use vstd::prelude::*;

use devicemapper::{Device, Sectors};

use crate::blockdev::{StratBlockDev, StratBlockDevView};
use crate::outside::random_u128;
use crate::types::{
    clone_encryption, enc_view, reserved_sectors, DevUuid, EncryptionInfo, EncryptionInfoView,
    MDADataSize, PoolUuid, StratisError, Timestamp,
};

verus! {

/// The smallest device that may join a pool, in sectors.
pub const MIN_DEV_SIZE: u64 = 2_097_152;

/// How many fresh identifiers are drawn for a device before giving up.
pub const UUID_ATTEMPTS: usize = 4;

/// Who claims a device, as its headers and the device database tell.
#[derive(Debug, Clone, Copy, PartialEq, Eq, Structural)]
pub enum DevOwnership {
    /// A member of a pool: the pool's and the member's identifiers.
    Ours(PoolUuid, DevUuid),
    /// No signature of any kind.
    Unowned,
    /// Claimed by something else: a file system, a volume manager, a
    /// multipath aggregate.
    Theirs,
}

/// A candidate device.
#[derive(Debug)]
pub struct DeviceInfo {
    pub devnode: String,
    pub device: Device,
    /// The capacity, in sectors.
    pub size: Sectors,
    pub ownership: DevOwnership,
}

/// What becomes of a candidate.
pub enum Verdict {
    /// It joins.
    Take,
    /// It is a member already, and is left as it is.
    Skip,
    /// It may not join, and the whole request fails.
    Reject,
}

/// The verdict on candidate `d` for pool `pool` whose members are `current`.
pub open spec fn verdict(pool: PoolUuid, current: Seq<DevUuid>, held: Seq<Device>, d: DeviceInfo) -> Verdict {
    match d.ownership {
        DevOwnership::Ours(p, u) => if p == pool && current.contains(u) {
            Verdict::Skip
        } else {
            Verdict::Reject
        },
        DevOwnership::Unowned => if d.size.0 < MIN_DEV_SIZE || held.contains(d.device) {
            Verdict::Reject
        } else {
            Verdict::Take
        },
        DevOwnership::Theirs => Verdict::Reject,
    }
}

/// The capacity of the candidates at `idx`, in sectors.
pub open spec fn idx_size(ds: Seq<DeviceInfo>, idx: Seq<usize>) -> nat
    decreases idx.len(),
{
    if idx.len() == 0 {
        0
    } else {
        idx_size(ds, idx.drop_last()) + ds[idx.last() as int].size.0 as nat
    }
}

/// Candidate `i` is the first of `ds` with its device number.
pub open spec fn first_of(ds: Seq<DeviceInfo>, i: int) -> bool {
    forall|j: int| 0 <= j < i ==> (#[trigger] ds[j]).device != ds[i].device
}

/// Candidate `i` joins: it is taken and is not a repeat.
pub open spec fn joins(pool: PoolUuid, current: Seq<DevUuid>, held: Seq<Device>, ds: Seq<DeviceInfo>, i: int) -> bool {
    verdict(pool, current, held, ds[i]) is Take && first_of(ds, i)
}

/// Some candidate is rejected.
pub open spec fn any_rejected(pool: PoolUuid, current: Seq<DevUuid>, held: Seq<Device>, ds: Seq<DeviceInfo>) -> bool {
    exists|i: int| 0 <= i < ds.len() && verdict(pool, current, held, #[trigger] ds[i]) is Reject
}

/// `idx` lists, ascending, exactly the candidates that join.
pub open spec fn is_selection(
    pool: PoolUuid,
    current: Seq<DevUuid>,
    held: Seq<Device>,
    ds: Seq<DeviceInfo>,
    idx: Seq<usize>,
) -> bool {
    &&& forall|a: int, b: int| 0 <= a < b < idx.len() ==> idx[a] < idx[b]
    &&& forall|a: int| 0 <= a < idx.len() ==> (#[trigger] idx[a]) < ds.len() && joins(pool, current, held, ds, idx[a] as int)
    &&& forall|i: int| 0 <= i < ds.len() && joins(pool, current, held, ds, i) ==> #[trigger] idx.contains(i as usize)
}

/// `v` is a new member made from candidate `d`.
pub open spec fn fresh_member(
    v: StratBlockDevView,
    d: DeviceInfo,
    pool: PoolUuid,
    mda_bytes: nat,
    enc: Option<EncryptionInfoView>,
) -> bool {
    &&& v.pool_uuid == pool
    &&& v.device == d.device
    &&& v.physical_path == d.devnode@
    &&& v.total_size == d.size.0
    &&& v.max_metadata_size == mda_bytes
    &&& v.metadata_size == reserved_sectors(mda_bytes)
    &&& v.avail == d.size.0 - reserved_sectors(mda_bytes)
    &&& v.slot_stamps == (None::<Timestamp>, None::<Timestamp>)
    &&& v.encryption == enc
}

pub(crate) fn same_device(a: &Device, b: &Device) -> (r: bool)
    ensures
        r == (*a == *b),
{
    a.major == b.major && a.minor == b.minor
}

fn contains_device(s: &Vec<Device>, d: &Device) -> (r: bool)
    ensures
        r == s@.contains(*d),
{
    let mut i: usize = 0;
    while i < s.len()
        invariant
            i <= s.len(),
            forall|k: int| 0 <= k < i ==> s[k] != *d,
        decreases s.len() - i,
    {
        if same_device(&s[i], d) {
            return true;
        }
        i = i + 1;
    }
    false
}

pub(crate) fn contains_uuid(s: &Vec<DevUuid>, u: DevUuid) -> (r: bool)
    ensures
        r == s@.contains(u),
{
    let mut i: usize = 0;
    while i < s.len()
        invariant
            i <= s.len(),
            forall|k: int| 0 <= k < i ==> s[k] != u,
        decreases s.len() - i,
    {
        if s[i] == u {
            return true;
        }
        i = i + 1;
    }
    false
}

/// Decide which candidates join pool `pool_uuid` whose members are
/// `current`: fails with `Invalid` if any candidate is rejected (claimed by
/// another pool or by something else, a stale member of this pool, or too
/// small, or its device number is one of `held`); otherwise lists the
/// unclaimed candidates, each device once.
pub fn process_and_verify_devices(
    pool_uuid: PoolUuid,
    current: &Vec<DevUuid>,
    held: &Vec<Device>,
    devices: &[DeviceInfo],
) -> (r: Result<Vec<usize>, StratisError>)
    ensures
        r is Err <==> any_rejected(pool_uuid, current@, held@, devices@),
        r is Err ==> r == Err::<Vec<usize>, StratisError>(StratisError::Invalid),
        r is Ok ==> is_selection(pool_uuid, current@, held@, devices@, r.unwrap()@),
{
    let mut idx: Vec<usize> = Vec::new();
    let mut i: usize = 0;
    while i < devices.len()
        invariant
            i <= devices.len(),
            forall|k: int| 0 <= k < i ==> !(verdict(pool_uuid, current@, held@, #[trigger] devices@[k]) is Reject),
            forall|a: int, b: int| 0 <= a < b < idx.len() ==> idx[a] < idx[b],
            forall|a: int| 0 <= a < idx.len() ==> (#[trigger] idx[a]) < i && joins(pool_uuid, current@, held@, devices@, idx[a] as int),
            forall|k: int| 0 <= k < i && joins(pool_uuid, current@, held@, devices@, k) ==> #[trigger] idx@.contains(k as usize),
        decreases devices.len() - i,
    {
        let d = &devices[i];
        let take = match d.ownership {
            DevOwnership::Ours(p, u) => {
                if p == pool_uuid && contains_uuid(current, u) {
                    false
                } else {
                    return Err(StratisError::Invalid);
                }
            },
            DevOwnership::Unowned => {
                if d.size.0 < MIN_DEV_SIZE || contains_device(held, &d.device) {
                    return Err(StratisError::Invalid);
                }
                true
            },
            DevOwnership::Theirs => {
                return Err(StratisError::Invalid);
            },
        };
        let mut first = true;
        let mut j: usize = 0;
        while j < i
            invariant
                j <= i < devices.len(),
                first <==> forall|q: int| 0 <= q < j ==> (#[trigger] devices@[q]).device != devices@[i as int].device,
            decreases i - j,
        {
            if same_device(&devices[j].device, &devices[i].device) {
                first = false;
            }
            j = j + 1;
        }
        let ghost idx0 = idx@;
        assert(idx0 == idx@);
        if take && first {
            idx.push(i);
        }
        proof {
            assert forall|k: int| 0 <= k < i + 1 && joins(pool_uuid, current@, held@, devices@, k) implies #[trigger] idx@.contains(k as usize) by {
                if k < i {
                    assert(idx0.contains(k as usize));
                    let w = choose|w: int| 0 <= w < idx0.len() && idx0[w] == k as usize;
                    assert(idx@[w] == idx0[w]);
                } else {
                    assert(idx@[idx.len() - 1] == i);
                }
            }
        }
        i = i + 1;
    }
    Ok(idx)
}

/// A fresh member identifier that `taken` does not hold, drawn at random;
/// `None` when every draw collided.
fn fresh_uuid(taken: &Vec<DevUuid>) -> (r: Option<DevUuid>)
    ensures
        r is Some ==> !taken@.contains(r.unwrap()),
{
    let mut attempt: usize = 0;
    while attempt < UUID_ATTEMPTS
        decreases UUID_ATTEMPTS - attempt,
    {
        let u = DevUuid(random_u128());
        if !contains_uuid(taken, u) {
            return Some(u);
        }
        attempt = attempt + 1;
    }
    None
}

/// New members of pool `pool_uuid` made from the candidates at `idx`, in
/// order, each with an identifier distinct from `taken` and from the others.
pub fn initialize_devices(
    devices: &[DeviceInfo],
    idx: &Vec<usize>,
    pool_uuid: PoolUuid,
    mda_size: MDADataSize,
    encryption_info: &Option<EncryptionInfo>,
    taken: &Vec<DevUuid>,
) -> (r: Result<Vec<StratBlockDev>, StratisError>)
    requires
        mda_size.wf(),
        forall|a: int| 0 <= a < idx.len() ==> (#[trigger] idx[a]) < devices.len() && devices[idx[a] as int].size.0 >= MIN_DEV_SIZE,
    ensures
        r is Err ==> r == Err::<Vec<StratBlockDev>, StratisError>(StratisError::InitializationFailed),
        r is Err ==> idx.len() > 0,
        idx.len() == 0 ==> r is Ok,
        r is Ok ==> r.unwrap().len() == idx.len(),
        r is Ok ==> forall|a: int|
            0 <= a < idx.len() ==> (#[trigger] r.unwrap()[a]).wf() && fresh_member(
                r.unwrap()[a]@,
                devices[idx[a] as int],
                pool_uuid,
                mda_size.spec_bytes(),
                enc_view(*encryption_info),
            ) && !taken@.contains(r.unwrap()[a]@.uuid),
        r is Ok ==> forall|a: int, b: int|
            0 <= a < b < idx.len() ==> (#[trigger] r.unwrap()[a])@.uuid != (#[trigger] r.unwrap()[b])@.uuid,
{
    let mut used: Vec<DevUuid> = taken.clone();
    let mut out: Vec<StratBlockDev> = Vec::new();
    let mut a: usize = 0;
    proof {
        assert(used@ =~= taken@);
    }
    while a < idx.len()
        invariant
            mda_size.wf(),
            forall|q: int| 0 <= q < idx.len() ==> (#[trigger] idx[q]) < devices.len() && devices[idx[q] as int].size.0 >= MIN_DEV_SIZE,
            a <= idx.len(),
            out.len() == a,
            used@.len() == taken@.len() + a,
            forall|q: int| 0 <= q < taken@.len() ==> used@[q] == taken@[q],
            forall|q: int| 0 <= q < a ==> used@[taken@.len() + q] == (#[trigger] out@[q])@.uuid,
            forall|q: int|
                0 <= q < a ==> (#[trigger] out@[q]).wf() && fresh_member(
                    out@[q]@,
                    devices[idx[q] as int],
                    pool_uuid,
                    mda_size.spec_bytes(),
                    enc_view(*encryption_info),
                ) && !taken@.contains(out@[q]@.uuid),
            forall|p: int, q: int| 0 <= p < q < a ==> (#[trigger] out@[p])@.uuid != (#[trigger] out@[q])@.uuid,
        decreases idx.len() - a,
    {
        let u = match fresh_uuid(&used) {
            Some(u) => u,
            None => {
                return Err(StratisError::InitializationFailed);
            },
        };
        let d = &devices[idx[a]];
        proof {
            assert(reserved_sectors(mda_size.spec_bytes()) <= MIN_DEV_SIZE) by {
                assert(mda_size.spec_bytes() <= 67_108_864);
            }
            assert forall|t: DevUuid| taken@.contains(t) implies used@.contains(t) by {
                let w = choose|w: int| 0 <= w < taken@.len() && taken@[w] == t;
                assert(used@[w] == t);
            }
            assert forall|q: int| 0 <= q < a implies (#[trigger] out@[q])@.uuid != u by {
                assert(used@[taken@.len() + q] == out@[q]@.uuid);
            }
        }
        let bd = StratBlockDev::new(
            u,
            pool_uuid,
            d.device,
            d.devnode.clone(),
            d.size,
            mda_size,
            clone_encryption(encryption_info),
        );
        out.push(bd);
        used.push(u);
        a = a + 1;
    }
    Ok(out)
}

} // verus!
