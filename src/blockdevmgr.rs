//! The set of member devices of one pool: sizes, atomic allocation across
//! members, metadata fan-out, membership changes and key-escrow binding.
use vstd::prelude::*;

use devicemapper::{Device, Sectors};

use crate::blockdev::StratBlockDev;
use crate::devices::{
    any_rejected, fresh_member, idx_size, initialize_devices, is_selection, joins,
    process_and_verify_devices, DeviceInfo,
};
use crate::outside::{choose_multiple, utc_now};
use crate::pool_model::{
    carved_from, clevis_view, dev_accepts, devices_of, devs_wf, first_fit_from, served_in_order, free_shrinks, from_first, from_member,
    lemma_filter_wf, lemma_prefix_sum_le, lemma_sample_all, lemma_sectors_prefix,
    lemma_sizes_bounded, lemma_sum_concat, lemma_sum_same, lemma_sum_same_total, lemma_sum_zero,
    lemma_update_free, lemma_update_slots, listed, pool_encryption, pool_mda_bytes, same_but_free,
    seg_outside, seg_within, segs_disjoint, slot_saved, stamp_after, stamp_follows,
    sum_allocated, sum_sectors, sum_sizes, unlisted, uuids_of, with_clevis, SizeKind,
};
use crate::runs::{
    covers, in_run, lemma_below_disjoint, lemma_runs_prefix, lemma_take_runs, lemma_take_runs_compose,
    runs_total, take_runs,
};
use crate::segment::{total_length, BlkDevSegment, Segment};
use crate::types::{
    clevis_info_eq, enc_view, ClevisInfo, DevUuid, EncryptionInfo, EncryptionInfoView,
    MDADataSize, PoolUuid, StratisError, Timestamp,
};

verus! {

/// The most members that one metadata save writes to.
pub const MAX_NUM_TO_WRITE: usize = 10;

/// A choice of members for one metadata save.
pub struct SavePlan {
    /// The stamp that the save carries.
    pub stamp: Timestamp,
    /// The indices of the members to write to, distinct.
    pub targets: Vec<usize>,
}

pub fn next_stamp(now: Timestamp, last: Option<Timestamp>) -> (r: Timestamp)
    requires
        last is Some ==> last.unwrap().nanos < i128::MAX,
    ensures
        r == stamp_after(now, last),
{
    match last {
        Some(l) => if now.nanos <= l.nanos { Timestamp { nanos: l.nanos + 1 } } else { now },
        None => now,
    }
}

/// The time now, from chrono.
pub fn now() -> Timestamp {
    let (secs, subsec) = utc_now();
    Timestamp { nanos: secs as i128 * 1_000_000_000 + subsec as i128 }
}

fn total_of(devs: &Vec<StratBlockDev>) -> (r: Option<u64>)
    ensures
        r is Some <==> sum_sizes(devs@, SizeKind::Total) <= u64::MAX,
        r is Some ==> r.unwrap() == sum_sizes(devs@, SizeKind::Total),
{
    let mut acc: u128 = 0;
    let mut i: usize = 0;
    while i < devs.len()
        invariant
            i <= devs.len(),
            acc == sum_sizes(devs@.take(i as int), SizeKind::Total),
            acc <= u64::MAX,
        decreases devs.len() - i,
    {
        proof {
            assert(devs@.take(i + 1).drop_last() =~= devs@.take(i as int));
        }
        acc = acc + devs[i].total_size().0 as u128;
        if acc > u64::MAX as u128 {
            proof {
                lemma_prefix_sum_le(devs@, i + 1, SizeKind::Total);
            }
            return None;
        }
        i = i + 1;
    }
    proof {
        assert(devs@.take(i as int) =~= devs@);
    }
    Some(acc as u64)
}

/// Members made one for one from the candidates at `idx` hold their
/// capacities in sum.
proof fn lemma_sum_idx_size(bds: Seq<StratBlockDev>, ds: Seq<DeviceInfo>, idx: Seq<usize>)
    requires
        bds.len() == idx.len(),
        forall|a: int| 0 <= a < idx.len() ==> (#[trigger] bds[a])@.total_size == ds[idx[a] as int].size.0,
    ensures
        sum_sizes(bds, SizeKind::Total) == idx_size(ds, idx),
    decreases idx.len(),
{
    if idx.len() > 0 {
        let b2 = bds.drop_last();
        let i2 = idx.drop_last();
        assert forall|a: int| 0 <= a < i2.len() implies (#[trigger] b2[a])@.total_size == ds[i2[a] as int].size.0 by {
            assert(b2[a] == bds[a] && i2[a] == idx[a]);
        }
        lemma_sum_idx_size(b2, ds, i2);
        assert(bds[bds.len() - 1]@.total_size == ds[idx[idx.len() - 1] as int].size.0);
    }
}

/// The candidates of a selection have distinct device numbers.
proof fn lemma_selection_devices(
    pool: PoolUuid,
    current: Seq<DevUuid>,
    held: Seq<Device>,
    ds: Seq<DeviceInfo>,
    idx: Seq<usize>,
    a: int,
    b: int,
)
    requires
        is_selection(pool, current, held, ds, idx),
        0 <= a < b < idx.len(),
    ensures
        ds[idx[a] as int].device != ds[idx[b] as int].device,
{
    assert(idx[a] < idx[b]);
    assert(joins(pool, current, held, ds, idx[b] as int));
    assert(ds[idx[a] as int] == ds[idx[a] as int]);
}

/// Every sector of a pool is reserved for metadata, free, or handed out:
/// `size() == metadata_size() + avail_space() + allocated`.
pub proof fn lemma_size_accounting(m: BlockDevMgr)
    requires
        m.wf(),
    ensures
        sum_sizes(m.devs(), SizeKind::Total) == sum_sizes(m.devs(), SizeKind::Metadata)
            + sum_sizes(m.devs(), SizeKind::Available) + sum_allocated(m.devs()),
{
    lemma_sizes_bounded(m.devs());
}

/// What an allocation hands out is added to the pool's allocated sectors
/// exactly: after `alloc_space(sizes)` succeeds, the allocated sectors grow
/// by the sum of `sizes`.
pub proof fn lemma_alloc_accounting(before: BlockDevMgr, after: BlockDevMgr, sizes: Seq<Sectors>)
    requires
        before.wf(),
        after.wf(),
        after.devs().len() == before.devs().len(),
        forall|k: int|
            0 <= k < before.devs().len() ==> same_but_free(before.devs()[k]@, (#[trigger] after.devs()[k])@),
        sum_sizes(after.devs(), SizeKind::Available) + sum_sectors(sizes) == sum_sizes(
            before.devs(),
            SizeKind::Available,
        ),
    ensures
        sum_allocated(after.devs()) == sum_allocated(before.devs()) + sum_sectors(sizes),
{
    lemma_sizes_bounded(before.devs());
    lemma_sizes_bounded(after.devs());
    lemma_sum_same(before.devs(), after.devs(), SizeKind::Total);
    lemma_sum_same(before.devs(), after.devs(), SizeKind::Metadata);
}

/// Outstanding segments on one member are disjoint: a segment carved by
/// one allocation (`m0` to `m1`) shares no sector with a segment carved by
/// any later allocation (`m2` to `m3`) from the same member, as long as no
/// sector became free again in between (`m1` to `m2`).
pub proof fn lemma_outstanding_disjoint(
    m0: Seq<StratBlockDev>,
    m1: Seq<StratBlockDev>,
    m2: Seq<StratBlockDev>,
    m3: Seq<StratBlockDev>,
    b1: BlkDevSegment,
    b2: BlkDevSegment,
    x: int,
)
    requires
        devs_wf(m2),
        m0.len() == m1.len() && m1.len() == m2.len(),
        forall|k: int| 0 <= k < m0.len() ==> (#[trigger] m0[k])@.uuid == m2[k]@.uuid,
        carved_from(m0, m1, b1),
        free_shrinks(m1, m2),
        carved_from(m2, m3, b2),
        b1.uuid == b2.uuid,
    ensures
        !(b1.segment.start.0 <= x < b1.segment.start.0 + b1.segment.length.0
            && b2.segment.start.0 <= x < b2.segment.start.0 + b2.segment.length.0),
{
    let k1 = choose|k: int|
        0 <= k < m0.len() && k < m1.len() && (#[trigger] m0[k])@.uuid == b1.uuid
            && m0[k]@.device == b1.segment.device && seg_within(b1, m0[k]@.free) && seg_outside(b1, m1[k]@.free);
    let k2 = choose|k: int|
        0 <= k < m2.len() && k < m3.len() && (#[trigger] m2[k])@.uuid == b2.uuid
            && m2[k]@.device == b2.segment.device && seg_within(b2, m2[k]@.free) && seg_outside(b2, m3[k]@.free);
    assert(m0[k1]@.uuid == m2[k1]@.uuid);
    if k1 != k2 {
        if k1 < k2 {
            assert(m2[k1]@.uuid != m2[k2]@.uuid);
        } else {
            assert(m2[k2]@.uuid != m2[k1]@.uuid);
        }
    }
    if b1.segment.start.0 <= x < b1.segment.start.0 + b1.segment.length.0
        && b2.segment.start.0 <= x < b2.segment.start.0 + b2.segment.length.0 {
        assert(covers(m2[k1]@.free, x));
        assert(covers(m1[k1]@.free, x));
    }
}

/// In a well-formed pool a device number names one member, so segments
/// carved from the same device belong to the same member, and the
/// per-member disjointness of `alloc_space` and
/// `lemma_outstanding_disjoint` is disjointness per device.
pub proof fn lemma_same_device_same_member(m: Seq<StratBlockDev>, b1: BlkDevSegment, b2: BlkDevSegment)
    requires
        devs_wf(m),
        from_member(m, b1),
        from_member(m, b2),
        b1.segment.device == b2.segment.device,
    ensures
        b1.uuid == b2.uuid,
{
    let k1 = choose|k: int|
        0 <= k < m.len() && (#[trigger] m[k])@.uuid == b1.uuid && m[k]@.device == b1.segment.device;
    let k2 = choose|k: int|
        0 <= k < m.len() && (#[trigger] m[k])@.uuid == b2.uuid && m[k]@.device == b2.segment.device;
    if k1 < k2 {
        assert(m[k1]@.device != m[k2]@.device);
    } else if k2 < k1 {
        assert(m[k2]@.device != m[k1]@.device);
    }
}

/// Successive successful metadata saves carry strictly increasing stamps.
pub proof fn lemma_stamps_increase(stamps: Seq<Option<Timestamp>>)
    requires
        forall|i: int| 0 <= i < stamps.len() - 1 ==> stamp_follows(#[trigger] stamps[i], stamps[i + 1]),
    ensures
        forall|i: int, j: int|
            1 <= i < j < stamps.len() ==> (#[trigger] stamps[i]).unwrap().nanos < (#[trigger] stamps[j]).unwrap().nanos,
{
    assert forall|i: int, j: int|
        1 <= i < j < stamps.len() implies (#[trigger] stamps[i]).unwrap().nanos < (#[trigger] stamps[j]).unwrap().nanos by {
        lemma_stamp_chain(stamps, i, j);
    }
}

proof fn lemma_stamp_chain(stamps: Seq<Option<Timestamp>>, i: int, j: int)
    requires
        forall|k: int| 0 <= k < stamps.len() - 1 ==> stamp_follows(#[trigger] stamps[k], stamps[k + 1]),
        1 <= i < j < stamps.len(),
    ensures
        stamps[i].unwrap().nanos < stamps[j].unwrap().nanos,
    decreases j - i,
{
    assert(stamp_follows(stamps[i - 1], stamps[i]));
    assert(stamp_follows(stamps[j - 1], stamps[j]));
    if j > i + 1 {
        assert(stamp_follows(stamps[j - 2], stamps[j - 1]));
        lemma_stamp_chain(stamps, i, j - 1);
    }
}

/// All members of a well-formed pool carry the pool's encryption
/// description: every one of them, or none, is encrypted, and alike.
pub proof fn lemma_encryption_agreement(m: BlockDevMgr)
    requires
        m.wf(),
    ensures
        forall|i: int| 0 <= i < m.devs().len() ==> (#[trigger] m.devs()[i])@.encryption == pool_encryption(m.devs()),
{
}

/// The member devices of one pool, and the time of the latest metadata save.
#[derive(Debug)]
pub struct BlockDevMgr {
    block_devs: Vec<StratBlockDev>,
    last_update_time: Option<Timestamp>,
}

impl BlockDevMgr {
    /// The members, in storage order.
    pub closed spec fn devs(&self) -> Seq<StratBlockDev> {
        self.block_devs@
    }

    /// The stamp of the latest successful metadata save.
    pub closed spec fn last_update(&self) -> Option<Timestamp> {
        self.last_update_time
    }

    pub open spec fn wf(&self) -> bool {
        devs_wf(self.devs())
    }

    /// A manager over members that already exist.
    pub fn new(block_devs: Vec<StratBlockDev>, last_update_time: Option<Timestamp>) -> (r:
        BlockDevMgr)
        requires
            devs_wf(block_devs@),
        ensures
            r.wf(),
            r.devs() == block_devs@,
            r.last_update() == last_update_time,
    {
        BlockDevMgr { block_devs, last_update_time }
    }

    /// The stamp of the latest successful metadata save.
    pub fn last_update_time(&self) -> (r: Option<Timestamp>)
        ensures
            r == self.last_update(),
    {
        self.last_update_time
    }

    /// The number of sectors not allocated for any purpose.
    pub fn avail_space(&self) -> (r: Sectors)
        requires
            self.wf(),
        ensures
            r.0 == sum_sizes(self.devs(), SizeKind::Available),
    {
        self.sum_of(SizeKind::Available)
    }

    /// The capacity of all the members.
    pub fn size(&self) -> (r: Sectors)
        requires
            self.wf(),
        ensures
            r.0 == sum_sizes(self.devs(), SizeKind::Total),
    {
        self.sum_of(SizeKind::Total)
    }

    /// The number of sectors reserved for metadata.
    pub fn metadata_size(&self) -> (r: Sectors)
        requires
            self.wf(),
        ensures
            r.0 == sum_sizes(self.devs(), SizeKind::Metadata),
    {
        self.sum_of(SizeKind::Metadata)
    }

    fn sum_of(&self, k: SizeKind) -> (r: Sectors)
        requires
            self.wf(),
        ensures
            r.0 == sum_sizes(self.devs(), k),
    {
        let ghost s = self.block_devs@;
        let mut total: u64 = 0;
        let mut i: usize = 0;
        while i < self.block_devs.len()
            invariant
                s == self.block_devs@,
                devs_wf(s),
                i <= s.len(),
                total == sum_sizes(s.take(i as int), k),
            decreases s.len() - i,
        {
            let bd = &self.block_devs[i];
            let v = match k {
                SizeKind::Total => bd.total_size().0,
                SizeKind::Metadata => bd.metadata_size().0,
                SizeKind::Available => bd.available().0,
            };
            proof {
                assert(s.take(i + 1).drop_last() =~= s.take(i as int));
                lemma_sizes_bounded(s.take(i + 1));
                lemma_sizes_bounded(s);
                lemma_prefix_sum_le(s, i + 1, k);
            }
            total = total + v;
            i = i + 1;
        }
        proof {
            assert(s.take(i as int) =~= s);
        }
        Sectors(total)
    }

    /// Allocate `sizes[i]` sectors for each request `i`, in order, scanning
    /// the members in storage order and taking from each first fit from its
    /// lowest free sector. Atomic: when the sizes add up to more than is
    /// available nothing changes and the result is `None`.
    pub fn alloc_space(&mut self, sizes: &[Sectors]) -> (r: Option<Vec<Vec<BlkDevSegment>>>)
        requires
            old(self).wf(),
        ensures
            final(self).wf(),
            final(self).last_update() == old(self).last_update(),
            final(self).devs().len() == old(self).devs().len(),
            forall|k: int|
                0 <= k < old(self).devs().len() ==> same_but_free(
                    old(self).devs()[k]@,
                    (#[trigger] final(self).devs()[k])@,
                ),
            r is None <==> sum_sectors(sizes@) > sum_sizes(old(self).devs(), SizeKind::Available),
            r is None ==> *final(self) == *old(self),
            r is Some ==> sum_sizes(final(self).devs(), SizeKind::Available) + sum_sectors(sizes@)
                == sum_sizes(old(self).devs(), SizeKind::Available),
            r is Some ==> r.unwrap().len() == sizes.len(),
            r is Some ==> forall|i: int|
                0 <= i < sizes.len() ==> total_length((#[trigger] r.unwrap()[i])@) == sizes[i].0,
            r is Some ==> forall|i: int, t: int|
                0 <= i < sizes.len() && 0 <= t < r.unwrap()[i].len() ==> from_member(
                    old(self).devs(),
                    #[trigger] r.unwrap()[i][t],
                ),
            r is Some ==> forall|i: int, t: int|
                0 <= i < sizes.len() && 0 <= t < r.unwrap()[i].len() ==> carved_from(
                    old(self).devs(),
                    final(self).devs(),
                    #[trigger] r.unwrap()[i][t],
                ),
            free_shrinks(old(self).devs(), final(self).devs()),
            r is Some ==> forall|i: int, t: int|
                0 <= i < sizes.len() && 0 <= t < r.unwrap()[i].len() ==> (#[trigger] r.unwrap()[i][t]).segment.length.0 > 0,
            r is Some ==> served_in_order(old(self).devs(), final(self).devs()),
            r is Some ==> forall|a: int, t: int, b: int, u: int|
                0 <= a < sizes.len() && 0 <= t < r.unwrap()[a].len() && 0 <= b < sizes.len() && 0 <= u
                    < r.unwrap()[b].len() && (a < b || (a == b && t < u)) ==> segs_disjoint(
                    #[trigger] r.unwrap()[a][t],
                    #[trigger] r.unwrap()[b][u],
                ),
    {
        let ghost s0 = self.block_devs@;
        let avail = self.avail_space();
        let mut acc: u128 = 0;
        let mut i: usize = 0;
        while i < sizes.len()
            invariant
                i <= sizes.len(),
                acc == sum_sectors(sizes@.take(i as int)),
                acc <= avail.0,
                avail.0 == sum_sizes(s0, SizeKind::Available),
                s0 == old(self).block_devs@,
                *self == *old(self),
                devs_wf(s0),
            decreases sizes.len() - i,
        {
            proof {
                lemma_sectors_prefix(sizes@, i as int);
            }
            acc = acc + sizes[i].0 as u128;
            if acc > avail.0 as u128 {
                return None;
            }
            i = i + 1;
        }
        proof {
            assert(sizes@.take(i as int) =~= sizes@);
        }
        proof {
            assert forall|k: int| 0 <= k < s0.len() && k < s0.len() implies first_fit_from(s0[k]@, #[trigger] s0[k]@) by {
                assert(s0[k]@.free == take_runs(s0[k]@.free, 0).1);
            }
        }
        let mut lists: Vec<Vec<BlkDevSegment>> = Vec::new();
        let mut i: usize = 0;
        while i < sizes.len()
            invariant
                devs_wf(self.block_devs@),
                self.last_update_time == old(self).last_update_time,
                s0 == old(self).block_devs@,
                self.block_devs@.len() == s0.len(),
                forall|k: int|
                    0 <= k < s0.len() ==> same_but_free(s0[k]@, (#[trigger] self.block_devs@[k])@),
                i <= sizes.len(),
                lists.len() == i,
                sum_sectors(sizes@) <= sum_sizes(s0, SizeKind::Available),
                sum_sizes(self.block_devs@, SizeKind::Available) + sum_sectors(sizes@.take(i as int))
                    == sum_sizes(s0, SizeKind::Available),
                forall|t: int| 0 <= t < i ==> total_length((#[trigger] lists[t])@) == sizes[t].0,
                forall|a: int, t: int|
                    0 <= a < i && 0 <= t < lists[a].len() ==> from_member(s0, #[trigger] lists[a][t]),
                forall|a: int, t: int|
                    0 <= a < i && 0 <= t < lists[a].len() ==> carved_from(s0, self.block_devs@, #[trigger] lists[a][t]),
                free_shrinks(s0, self.block_devs@),
                forall|a: int, t: int|
                    0 <= a < i && 0 <= t < lists[a].len() ==> (#[trigger] lists[a][t]).segment.length.0 > 0,
                served_in_order(s0, self.block_devs@),
                devs_wf(s0),
                forall|a: int, t: int, b: int, u: int|
                    0 <= a < i && 0 <= t < lists[a].len() && 0 <= b < i && 0 <= u < lists[b].len() && (a < b
                        || (a == b && t < u)) ==> segs_disjoint(#[trigger] lists[a][t], #[trigger] lists[b][u]),
            decreases sizes.len() - i,
        {
            proof {
                lemma_sectors_prefix(sizes@, i as int);
            }
            let ghost s1 = self.block_devs@;
            let segs = self.alloc_one(sizes[i]);
            let ghost s2 = self.block_devs@;
            proof {
                assert forall|k: int| 0 <= k < s0.len() && k < s2.len() implies first_fit_from(s0[k]@, #[trigger] s2[k]@) by {
                    assert(first_fit_from(s0[k]@, s1[k]@));
                    assert(first_fit_from(s1[k]@, s2[k]@));
                    let n1 = choose|n: nat| s1[k]@.free == #[trigger] take_runs(s0[k]@.free, n).1;
                    let n2 = choose|n: nat| s2[k]@.free == #[trigger] take_runs(s1[k]@.free, n).1;
                    assert(s0[k].wf());
                    lemma_take_runs_compose(s0[k]@.free, n1, n2, s0[k]@.metadata_size as int, s0[k]@.total_size as int);
                    assert(s2[k]@.free == take_runs(s0[k]@.free, n1 + n2).1);
                }
                assert forall|k: int, q: int|
                    0 <= q < k < s0.len() && k < s2.len() && (#[trigger] s2[k])@.free != s0[k]@.free
                        implies (#[trigger] s2[q])@.avail == 0 by {
                    if s2[k]@.free == s1[k]@.free {
                        assert(s1[k]@.free != s0[k]@.free);
                        assert(s1[q]@.avail == 0);
                        assert(first_fit_from(s1[q]@, s2[q]@));
                        let n = choose|n: nat| s2[q]@.free == #[trigger] take_runs(s1[q]@.free, n).1;
                        assert(s1[q].wf() && s2[q].wf());
                        lemma_take_runs(s1[q]@.free, n, s1[q]@.metadata_size as int, s1[q]@.total_size as int);
                    } else {
                        assert(s2[q]@.avail == 0);
                    }
                }
            }
            proof {
                assert forall|k: int, x: int|
                    0 <= k < s0.len() && k < s2.len() && #[trigger] covers(s2[k]@.free, x) implies covers(s0[k]@.free, x) by {
                    assert(covers(s1[k]@.free, x));
                }
                assert forall|a: int, t: int|
                    0 <= a < i && 0 <= t < lists[a].len() implies carved_from(s0, s2, #[trigger] lists[a][t]) by {
                    let b = lists[a][t];
                    let k = choose|k: int|
                        0 <= k < s0.len() && k < s1.len() && (#[trigger] s0[k])@.uuid == b.uuid
                            && s0[k]@.device == b.segment.device && seg_within(b, s0[k]@.free)
                            && seg_outside(b, s1[k]@.free);
                    assert forall|x: int|
                        b.segment.start.0 <= x < b.segment.start.0 + b.segment.length.0 implies !#[trigger] covers(s2[k]@.free, x) by {
                        if covers(s2[k]@.free, x) {
                            assert(covers(s1[k]@.free, x));
                        }
                    }
                    assert(s0[k] == s0[k]);
                }
                assert forall|t: int| 0 <= t < segs.len() implies carved_from(s0, s2, #[trigger] segs[t]) by {
                    let b = segs[t];
                    let k = choose|k: int|
                        0 <= k < s1.len() && k < s2.len() && (#[trigger] s1[k])@.uuid == b.uuid
                            && s1[k]@.device == b.segment.device && seg_within(b, s1[k]@.free)
                            && seg_outside(b, s2[k]@.free);
                    assert(same_but_free(s0[k]@, s1[k]@));
                    assert forall|x: int|
                        b.segment.start.0 <= x < b.segment.start.0 + b.segment.length.0 implies #[trigger] covers(s0[k]@.free, x) by {
                        assert(covers(s1[k]@.free, x));
                    }
                    assert(s0[k] == s0[k]);
                }
                assert forall|t: int| 0 <= t < segs.len() implies from_member(s0, #[trigger] segs[t]) by {
                    let k = choose|k: int|
                        0 <= k < s1.len() && (#[trigger] s1[k])@.uuid == segs[t].uuid && s1[k]@.device
                            == segs[t].segment.device;
                    assert(same_but_free(s0[k]@, s1[k]@));
                }
            }
            proof {
                assert forall|a: int, t: int, u: int|
                    0 <= a < i && 0 <= t < lists[a].len() && 0 <= u < segs.len() implies segs_disjoint(
                    #[trigger] lists[a][t],
                    #[trigger] segs[u],
                ) by {
                    let b1 = lists[a][t];
                    let b2 = segs[u];
                    assert(carved_from(s0, s1, b1));
                    assert(carved_from(s1, s2, b2));
                    let x = if b1.segment.start.0 <= b2.segment.start.0 {
                        b2.segment.start.0 as int
                    } else {
                        b1.segment.start.0 as int
                    };
                    assert forall|k: int| 0 <= k < s0.len() implies (#[trigger] s0[k])@.uuid == s1[k]@.uuid by {
                        assert(same_but_free(s0[k]@, s1[k]@));
                    }
                    if b1.uuid == b2.uuid {
                        lemma_outstanding_disjoint(s0, s1, s1, s2, b1, b2, x);
                    }
                }
            }
            let ghost l0 = lists@;
            lists.push(segs);
            proof {
                assert forall|a: int, t: int|
                    0 <= a < i + 1 && 0 <= t < lists[a].len() implies carved_from(s0, s2, #[trigger] lists[a][t]) by {
                    if a < i {
                        assert(lists[a] == l0[a]);
                    }
                }
                assert forall|a: int, t: int|
                    0 <= a < i + 1 && 0 <= t < lists[a].len() implies (#[trigger] lists[a][t]).segment.length.0 > 0 by {
                    if a < i {
                        assert(lists[a] == l0[a]);
                    }
                }
                assert forall|a: int, t: int, b: int, u: int|
                    0 <= a < i + 1 && 0 <= t < lists[a].len() && 0 <= b < i + 1 && 0 <= u < lists[b].len() && (a
                        < b || (a == b && t < u)) implies segs_disjoint(#[trigger] lists[a][t], #[trigger] lists[b][u]) by {
                    if b < i {
                        assert(lists[a] == l0[a] && lists[b] == l0[b]);
                    } else if a < i {
                        assert(lists[a] == l0[a]);
                        assert(lists[b] == segs);
                    } else {
                        assert(lists[a] == segs && lists[b] == segs);
                    }
                }
            }
            i = i + 1;
        }
        proof {
            assert(sizes@.take(i as int) =~= sizes@);
        }
        Some(lists)
    }

    /// Allocate `needed` sectors, scanning the members in storage order.
    fn alloc_one(&mut self, needed: Sectors) -> (segs: Vec<BlkDevSegment>)
        requires
            devs_wf(old(self).block_devs@),
            needed.0 <= sum_sizes(old(self).block_devs@, SizeKind::Available),
        ensures
            devs_wf(final(self).block_devs@),
            final(self).last_update_time == old(self).last_update_time,
            final(self).block_devs@.len() == old(self).block_devs@.len(),
            forall|k: int|
                0 <= k < old(self).block_devs@.len() ==> same_but_free(
                    old(self).block_devs@[k]@,
                    (#[trigger] final(self).block_devs@[k])@,
                ),
            sum_sizes(final(self).block_devs@, SizeKind::Available) + needed.0 == sum_sizes(
                old(self).block_devs@,
                SizeKind::Available,
            ),
            total_length(segs@) == needed.0,
            forall|t: int| 0 <= t < segs.len() ==> from_member(old(self).block_devs@, #[trigger] segs[t]),
            forall|t: int|
                0 <= t < segs.len() ==> carved_from(old(self).block_devs@, final(self).block_devs@, #[trigger] segs[t]),
            free_shrinks(old(self).block_devs@, final(self).block_devs@),
            forall|t: int| 0 <= t < segs.len() ==> (#[trigger] segs[t]).segment.length.0 > 0,
            forall|t1: int, t2: int|
                0 <= t1 < t2 < segs.len() ==> segs_disjoint(#[trigger] segs[t1], #[trigger] segs[t2]),
            served_in_order(old(self).block_devs@, final(self).block_devs@),
    {
        let ghost s1 = self.block_devs@;
        let mut alloc: u64 = 0;
        let mut segs: Vec<BlkDevSegment> = Vec::new();
        let mut j: usize = 0;
        proof {
            assert forall|k: int| 0 <= k < s1.len() && k < s1.len() implies first_fit_from(s1[k]@, #[trigger] s1[k]@) by {
                assert(s1[k]@.free == take_runs(s1[k]@.free, 0).1);
            }
        }
        while j < self.block_devs.len() && alloc < needed.0
            invariant
                devs_wf(self.block_devs@),
                self.last_update_time == old(self).last_update_time,
                s1 == old(self).block_devs@,
                self.block_devs@.len() == s1.len(),
                forall|k: int|
                    0 <= k < s1.len() ==> same_but_free(s1[k]@, (#[trigger] self.block_devs@[k])@),
                j <= s1.len(),
                alloc <= needed.0,
                needed.0 <= sum_sizes(s1, SizeKind::Available),
                sum_sizes(self.block_devs@, SizeKind::Available) + alloc == sum_sizes(s1, SizeKind::Available),
                alloc < needed.0 ==> forall|k: int| 0 <= k < j ==> (#[trigger] self.block_devs@[k])@.avail == 0,
                total_length(segs@) == alloc,
                forall|t: int| 0 <= t < segs.len() ==> from_member(s1, #[trigger] segs[t]),
                forall|t: int| 0 <= t < segs.len() ==> carved_from(s1, self.block_devs@, #[trigger] segs[t]),
                free_shrinks(s1, self.block_devs@),
                devs_wf(s1),
                forall|t: int| 0 <= t < segs.len() ==> (#[trigger] segs[t]).segment.length.0 > 0,
                forall|t: int| 0 <= t < segs.len() ==> from_first(s1, j as int, #[trigger] segs[t]),
                forall|t1: int, t2: int|
                    0 <= t1 < t2 < segs.len() ==> segs_disjoint(#[trigger] segs[t1], #[trigger] segs[t2]),
                served_in_order(s1, self.block_devs@),
                forall|k: int| j <= k < s1.len() ==> (#[trigger] self.block_devs@[k])@.free == s1[k]@.free,
            decreases s1.len() - j,
        {
            let ghost before = self.block_devs@;
            let uuid = self.block_devs[j].uuid();
            let device = *self.block_devs[j].device();
            let runs = self.block_devs[j].request_space(Sectors(needed.0 - alloc));
            let ghost after = self.block_devs@;
            proof {
                assert(after[j as int]@.free == take_runs(s1[j as int]@.free, (needed.0 - alloc) as nat).1);
                assert forall|k: int| 0 <= k < s1.len() && k < after.len() implies first_fit_from(s1[k]@, #[trigger] after[k]@) by {
                    if k == j {
                        assert(after[k]@.free == take_runs(s1[k]@.free, (needed.0 - alloc) as nat).1);
                    } else {
                        assert(after[k] == before[k]);
                    }
                }
                assert forall|k: int, q: int|
                    0 <= q < k < s1.len() && k < after.len() && (#[trigger] after[k])@.free != s1[k]@.free
                        implies (#[trigger] after[q])@.avail == 0 by {
                    assert(after[q] == before[q]);
                    if k != j {
                        assert(after[k] == before[k]);
                    }
                }
                assert forall|k: int| j + 1 <= k < s1.len() implies (#[trigger] after[k])@.free == s1[k]@.free by {
                    assert(after[k] == before[k]);
                }
            }
            proof {
                lemma_update_free(before, j as int, self.block_devs@[j as int]);
                assert(self.block_devs@ == before.update(j as int, self.block_devs@[j as int]));
                assert(same_but_free(s1[j as int]@, before[j as int]@));
                assert forall|k: int, x: int|
                    0 <= k < s1.len() && k < after.len() && #[trigger] covers(after[k]@.free, x) implies covers(s1[k]@.free, x) by {
                    if k == j {
                        assert(covers(before[k]@.free, x));
                    } else {
                        assert(after[k] == before[k]);
                    }
                }
                assert forall|t: int| 0 <= t < segs.len() implies carved_from(s1, after, #[trigger] segs[t]) by {
                    assert(carved_from(s1, before, segs[t]));
                    let k = choose|k: int|
                        0 <= k < s1.len() && k < before.len() && (#[trigger] s1[k])@.uuid == segs[t].uuid
                            && s1[k]@.device == segs[t].segment.device && seg_within(segs[t], s1[k]@.free)
                            && seg_outside(segs[t], before[k]@.free);
                    assert forall|x: int|
                        segs[t].segment.start.0 <= x < segs[t].segment.start.0 + segs[t].segment.length.0 implies !#[trigger] covers(after[k]@.free, x) by {
                        if k == j {
                            if covers(after[k]@.free, x) {
                                assert(covers(before[k]@.free, x));
                            }
                        } else {
                            assert(after[k] == before[k]);
                        }
                    }
                    assert(s1[k] == s1[k]);
                }
            }
            let mut t: usize = 0;
            let mut got: u64 = 0;
            let ghost n0 = segs.len();
            while t < runs.len()
                invariant
                    t <= runs.len(),
                    got == runs_total(runs@.take(t as int)),
                    runs_total(runs@) <= needed.0 - alloc,
                    total_length(segs@) == alloc + got,
                    0 <= j < s1.len(),
                    s1[j as int]@.uuid == uuid,
                    s1[j as int]@.device == device,
                    forall|k: int| 0 <= k < segs.len() ==> from_member(s1, #[trigger] segs[k]),
                    after == self.block_devs@,
                    after.len() == s1.len(),
                    before.len() == s1.len(),
                    free_shrinks(s1, after),
                    free_shrinks(s1, before),
                    forall|x: int|
                        #![trigger covers(before[j as int]@.free, x)]
                        #![trigger covers(runs@, x)]
                        #![trigger covers(after[j as int]@.free, x)]
                        covers(before[j as int]@.free, x) == (covers(runs@, x) || covers(after[j as int]@.free, x)),
                    crate::runs::runs_below(runs@, after[j as int]@.free),
                    forall|k: int| 0 <= k < segs.len() ==> carved_from(s1, after, #[trigger] segs[k]),
                    devs_wf(s1),
                    crate::runs::runs_sorted(runs@),
                    segs.len() == n0 + t,
                    forall|q: int| 0 <= q < segs.len() ==> (#[trigger] segs[q]).segment.length.0 > 0,
                    forall|q: int| 0 <= q < n0 ==> from_first(s1, j as int, #[trigger] segs[q]),
                    forall|q: int|
                        n0 <= q < segs.len() ==> (#[trigger] segs[q]).uuid == uuid && segs[q].segment.start == runs@[q - n0].0
                            && segs[q].segment.length == runs@[q - n0].1,
                    forall|t1: int, t2: int|
                        0 <= t1 < t2 < segs.len() ==> segs_disjoint(#[trigger] segs[t1], #[trigger] segs[t2]),
                decreases runs.len() - t,
            {
                proof {
                    lemma_runs_prefix(runs@, t as int);
                }
                let (start, length) = runs[t];
                let b = BlkDevSegment::new(uuid, Segment::new(device, start, length));
                proof {
                    assert(segs@.push(b).drop_last() =~= segs@);
                    assert(from_member(s1, b)) by {
                        assert(s1[j as int]@.uuid == b.uuid);
                    }
                    assert forall|x: int|
                        b.segment.start.0 <= x < b.segment.start.0 + b.segment.length.0 implies #[trigger] covers(s1[j as int]@.free, x)
                            && !covers(after[j as int]@.free, x) by {
                        assert(in_run(runs@[t as int], x));
                        assert(covers(runs@, x));
                        lemma_below_disjoint(runs@, after[j as int]@.free, x);
                        assert(covers(before[j as int]@.free, x));
                        assert(covers(s1[j as int]@.free, x));
                    }
                    assert(seg_within(b, s1[j as int]@.free));
                    assert(seg_outside(b, after[j as int]@.free));
                    assert(carved_from(s1, after, b));
                    assert(runs@[t as int].1.0 > 0);
                    assert forall|q: int| 0 <= q < segs.len() implies segs_disjoint(#[trigger] segs[q], b) by {
                        if q < n0 {
                            let k = choose|k: int| 0 <= k < j && (#[trigger] s1[k])@.uuid == segs[q].uuid;
                            assert(s1[k]@.uuid != s1[j as int]@.uuid);
                        } else {
                            assert(crate::runs::run_end(runs@[q - n0]) <= runs@[t as int].0.0);
                        }
                    }
                }
                let ghost g0 = segs@;
                segs.push(b);
                proof {
                    assert forall|t1: int, t2: int|
                        0 <= t1 < t2 < segs.len() implies segs_disjoint(#[trigger] segs[t1], #[trigger] segs[t2]) by {
                        if t2 < g0.len() {
                            assert(segs[t1] == g0[t1] && segs[t2] == g0[t2]);
                        } else {
                            assert(segs[t1] == g0[t1]);
                        }
                    }
                }
                got = got + length.0;
                t = t + 1;
            }
            proof {
                assert(runs@.take(t as int) =~= runs@);
            }
            proof {
                assert forall|q: int| 0 <= q < segs.len() implies from_first(s1, j + 1, #[trigger] segs[q]) by {
                    if q < n0 {
                        let k = choose|k: int| 0 <= k < j && (#[trigger] s1[k])@.uuid == segs[q].uuid;
                        assert(s1[k]@.uuid == segs[q].uuid);
                    } else {
                        assert(s1[j as int]@.uuid == segs[q].uuid);
                    }
                }
            }
            alloc = alloc + got;
            j = j + 1;
        }
        proof {
            if alloc < needed.0 {
                lemma_sum_zero(self.block_devs@);
            }
        }
        segs
    }

    /// The indices, ascending, of the members whose metadata slots can hold
    /// `len` bytes.
    pub fn save_candidates(&self, len: usize) -> (r: Vec<usize>)
        ensures
            forall|i: int, j: int| 0 <= i < j < r.len() ==> r[i] < r[j],
            forall|i: int|
                0 <= i < r.len() ==> (#[trigger] r[i]) < self.devs().len() && len
                    <= self.devs()[r[i] as int]@.max_metadata_size,
            forall|k: int|
                0 <= k < self.devs().len() && len <= (#[trigger] self.devs()[k])@.max_metadata_size
                    ==> r@.contains(k as usize),
    {
        let mut r: Vec<usize> = Vec::new();
        let mut k: usize = 0;
        while k < self.block_devs.len()
            invariant
                k <= self.block_devs.len(),
                forall|i: int, j: int| 0 <= i < j < r.len() ==> r[i] < r[j],
                forall|i: int|
                    0 <= i < r.len() ==> (#[trigger] r[i]) < k && len
                        <= self.devs()[r[i] as int]@.max_metadata_size,
                forall|q: int|
                    0 <= q < k && len <= (#[trigger] self.devs()[q])@.max_metadata_size
                        ==> r@.contains(q as usize),
            decreases self.block_devs.len() - k,
        {
            let ghost r0 = r@;
            if len as u64 <= self.block_devs[k].max_metadata_size().0 {
                r.push(k);
            }
            proof {
                assert forall|q: int|
                    0 <= q < k + 1 && len <= (#[trigger] self.devs()[q])@.max_metadata_size
                        implies r@.contains(q as usize) by {
                    if q < k {
                        let w = choose|w: int| 0 <= w < r0.len() && r0[w] == q as usize;
                        assert(r@[w] == r0[w]);
                    } else {
                        assert(r@[r.len() - 1] == k);
                    }
                }
            }
            k = k + 1;
        }
        r
    }

    /// Choose where the next metadata save of `len` bytes goes: its stamp
    /// follows the previous one, and its targets are at most
    /// `MAX_NUM_TO_WRITE` distinct members, picked at random among those
    /// that can hold the metadata.
    pub fn save_state_plan(&self, len: usize) -> (r: SavePlan)
        requires
            self.last_update() is Some ==> self.last_update().unwrap().nanos < i128::MAX,
        ensures
            self.last_update() is Some ==> self.last_update().unwrap().nanos < r.stamp.nanos,
            exists|t: Timestamp| r.stamp == stamp_after(t, self.last_update()),
            r.targets@.no_duplicates(),
            forall|i: int|
                0 <= i < r.targets.len() ==> (#[trigger] r.targets[i]) < self.devs().len() && len
                    <= self.devs()[r.targets[i] as int]@.max_metadata_size,
            r.targets.len() <= MAX_NUM_TO_WRITE,
            r.targets.len() == MAX_NUM_TO_WRITE || forall|k: int|
                0 <= k < self.devs().len() && len <= (#[trigger] self.devs()[k])@.max_metadata_size
                    ==> r.targets@.contains(k as usize),
    {
        let t = now();
        let stamp = next_stamp(t, self.last_update_time);
        proof {
            assert(stamp == stamp_after(t, self.last_update()));
        }
        let candidates = self.save_candidates(len);
        proof {
            assert forall|i: int, j: int| 0 <= i < j < candidates.len() implies candidates[i] != candidates[j] by {}
        }
        let ghost c = candidates@;
        let n = candidates.len();
        let targets = choose_multiple(candidates, MAX_NUM_TO_WRITE);
        proof {
            if targets.len() < MAX_NUM_TO_WRITE {
                assert forall|k: int|
                    0 <= k < self.devs().len() && len <= (#[trigger] self.devs()[k])@.max_metadata_size
                        implies targets@.contains(k as usize) by {
                    lemma_sample_all(c, targets@, k as usize);
                }
            }
            assert forall|i: int| 0 <= i < targets.len() implies (#[trigger] targets[i]) < self.devs().len() && len
                    <= self.devs()[targets[i] as int]@.max_metadata_size by {
                assert(c.contains(targets[i]));
            }
        }
        SavePlan { stamp, targets }
    }

    /// Record a metadata save of `len` bytes: `written[i]` tells whether the
    /// bytes reached member `plan.targets[i]`. Each member so reached that
    /// accepts the stamp rotates its slots; the save succeeds when at least
    /// one does, and then the manager's stamp becomes the plan's. A stamp
    /// that does not follow the previous one is refused, and on any error
    /// nothing changes.
    pub fn save_state(&mut self, plan: &SavePlan, len: usize, written: &[bool]) -> (r: Result<(), StratisError>)
        requires
            old(self).wf(),
            written.len() == plan.targets.len(),
            plan.targets@.no_duplicates(),
            forall|i: int| 0 <= i < plan.targets.len() ==> (#[trigger] plan.targets[i]) < old(self).devs().len(),
        ensures
            final(self).wf(),
            r is Err ==> final(self).devs() == old(self).devs() && final(self).last_update()
                == old(self).last_update(),
            r is Ok <==> (old(self).last_update() is None || old(self).last_update().unwrap().nanos < plan.stamp.nanos)
                && exists|i: int| 0 <= i < written.len() && written[i] && dev_accepts(
                    old(self).devs()[plan.targets[i] as int]@,
                    plan.stamp,
                    len as nat,
                ),
            r is Ok ==> final(self).last_update() == Some(plan.stamp),
            r is Ok ==> stamp_follows(old(self).last_update(), final(self).last_update()),
            r is Err ==> r == Err::<(), StratisError>(StratisError::Invalid) || r == Err::<(), StratisError>(StratisError::NoMetadataTarget),
            final(self).devs().len() == old(self).devs().len(),
            r is Ok ==> forall|k: int|
                0 <= k < old(self).devs().len() ==> (#[trigger] final(self).devs()[k])@ == if exists|i: int|
                    0 <= i < written.len() && written[i] && plan.targets[i] == k && dev_accepts(
                        old(self).devs()[k]@,
                        plan.stamp,
                        len as nat,
                    ) {
                    slot_saved(old(self).devs()[k]@, plan.stamp)
                } else {
                    old(self).devs()[k]@
                },
    {
        match self.last_update_time {
            Some(l) => {
                if plan.stamp.nanos <= l.nanos {
                    return Err(StratisError::Invalid);
                }
            },
            None => {},
        }
        let ghost s0 = self.block_devs@;
        let mut saved = false;
        let mut i: usize = 0;
        while i < plan.targets.len()
            invariant
                s0 == old(self).block_devs@,
                self.last_update_time == old(self).last_update_time,
                devs_wf(self.block_devs@),
                self.block_devs@.len() == s0.len(),
                i <= plan.targets.len(),
                written.len() == plan.targets.len(),
                plan.targets@.no_duplicates(),
                forall|q: int| 0 <= q < plan.targets.len() ==> (#[trigger] plan.targets[q]) < s0.len(),
                saved <==> exists|q: int| 0 <= q < i && written[q] && dev_accepts(
                    s0[plan.targets[q] as int]@,
                    plan.stamp,
                    len as nat,
                ),
                !saved ==> self.block_devs@ == s0,
                forall|k: int|
                    0 <= k < s0.len() ==> (#[trigger] self.block_devs@[k])@ == if exists|q: int|
                        0 <= q < i && written[q] && plan.targets[q] == k && dev_accepts(
                            s0[k]@,
                            plan.stamp,
                            len as nat,
                        ) {
                        slot_saved(s0[k]@, plan.stamp)
                    } else {
                        s0[k]@
                    },
            decreases plan.targets.len() - i,
        {
            let k = plan.targets[i];
            if written[i] {
                let ghost before = self.block_devs@;
                proof {
                    assert(before[k as int]@ == s0[k as int]@) by {
                        if exists|q: int| 0 <= q < i && written[q] && plan.targets[q] == k && dev_accepts(
                            s0[k as int]@, plan.stamp, len as nat) {
                            let q = choose|q: int| 0 <= q < i && written[q] && plan.targets[q] == k && dev_accepts(
                                s0[k as int]@, plan.stamp, len as nat);
                            assert(plan.targets@[q] == plan.targets@[i as int]);
                        }
                    }
                }
                let res = self.block_devs[k].save_state(plan.stamp, len);
                proof {
                    let t = self.block_devs@;
                    assert(t == before.update(k as int, t[k as int]));
                    lemma_update_slots(before, k as int, t[k as int]);
                }
                if res.is_ok() {
                    saved = true;
                }
            }
            i = i + 1;
        }
        if saved {
            self.last_update_time = Some(plan.stamp);
            Ok(())
        } else {
            Err(StratisError::NoMetadataTarget)
        }
    }

    /// A manager over new members made from `devices` for pool
    /// `pool_uuid`: fails with `Invalid` if and only if a candidate is
    /// rejected or the capacities of those that join add up past what a
    /// `u64` counts; fails otherwise only with `InitializationFailed`, when
    /// no fresh identifier could be drawn for a joining candidate. On
    /// success the members are the selected candidates, in order, each
    /// encrypted with `key_desc` if one is given. When no candidate joins,
    /// it succeeds with no members.
    pub fn initialize(
        pool_uuid: PoolUuid,
        devices: &[DeviceInfo],
        mda_data_size: MDADataSize,
        key_desc: Option<String>,
    ) -> (r: Result<BlockDevMgr, StratisError>)
        requires
            mda_data_size.wf(),
        ensures
            any_rejected(pool_uuid, Seq::empty(), Seq::empty(), devices@) ==> r == Err::<BlockDevMgr, StratisError>(StratisError::Invalid),
            r == Err::<BlockDevMgr, StratisError>(StratisError::Invalid) ==> any_rejected(pool_uuid, Seq::empty(), Seq::empty(), devices@)
                || exists|idx: Seq<usize>|
                is_selection(pool_uuid, Seq::empty(), Seq::empty(), devices@, idx) && idx_size(devices@, idx) > u64::MAX,
            r == Err::<BlockDevMgr, StratisError>(StratisError::InitializationFailed) ==> exists|i: int|
                0 <= i < devices.len() && joins(pool_uuid, Seq::empty(), Seq::empty(), devices@, i),
            r is Err ==> r == Err::<BlockDevMgr, StratisError>(StratisError::Invalid) || r == Err::<BlockDevMgr, StratisError>(StratisError::InitializationFailed),
            !any_rejected(pool_uuid, Seq::empty(), Seq::empty(), devices@) && (forall|i: int|
                0 <= i < devices.len() ==> !joins(pool_uuid, Seq::empty(), Seq::empty(), devices@, i))
                ==> r is Ok && r.unwrap().devs().len() == 0,
            r is Ok ==> r.unwrap().wf() && r.unwrap().last_update() is None && exists|idx: Seq<usize>|
                is_selection(pool_uuid, Seq::empty(), Seq::empty(), devices@, idx) && r.unwrap().devs().len() == idx.len()
                    && forall|a: int|
                    0 <= a < idx.len() ==> fresh_member(
                        (#[trigger] r.unwrap().devs()[a])@,
                        devices@[idx[a] as int],
                        pool_uuid,
                        mda_data_size.spec_bytes(),
                        match key_desc {
                            Some(k) => Some(EncryptionInfoView { key_description: k@, clevis_info: None }),
                            None => None,
                        },
                    ),
    {
        let none: Vec<DevUuid> = Vec::new();
        let no_devices: Vec<Device> = Vec::new();
        proof {
            assert(none@ =~= Seq::<DevUuid>::empty());
            assert(no_devices@ =~= Seq::<Device>::empty());
        }
        let idx = match process_and_verify_devices(pool_uuid, &none, &no_devices, devices) {
            Ok(idx) => idx,
            Err(e) => {
                return Err(e);
            },
        };
        proof {
            if idx.len() > 0 {
                assert(joins(pool_uuid, none@, no_devices@, devices@, idx@[0] as int));
            }
        }
        let encryption_info = match key_desc {
            Some(k) => Some(EncryptionInfo { key_description: k, clevis_info: None }),
            None => None,
        };
        let bds = match initialize_devices(devices, &idx, pool_uuid, mda_data_size, &encryption_info, &none) {
            Ok(bds) => bds,
            Err(e) => {
                return Err(e);
            },
        };
        proof {
            lemma_sum_idx_size(bds@, devices@, idx@);
        }
        if total_of(&bds).is_none() {
            return Err(StratisError::Invalid);
        }
        proof {
            let s = bds@;
            if s.len() > 0 {
                assert forall|i: int| 0 <= i < s.len() implies (#[trigger] s[i])@.pool_uuid == s[0]@.pool_uuid && s[i]@.encryption == s[0]@.encryption by {
                    assert(fresh_member(s[i]@, devices@[idx[i] as int], pool_uuid, mda_data_size.spec_bytes(), enc_view(encryption_info)));
                    assert(fresh_member(s[0]@, devices@[idx[0] as int], pool_uuid, mda_data_size.spec_bytes(), enc_view(encryption_info)));
                }
            }
            assert forall|a: int, b: int| 0 <= a < b < s.len() implies (#[trigger] s[a])@.uuid != (#[trigger] s[b])@.uuid && s[a]@.device != s[b]@.device by {
                lemma_selection_devices(pool_uuid, none@, no_devices@, devices@, idx@, a, b);
            }
            assert forall|a: int| 0 <= a < idx.len() implies fresh_member(
                (#[trigger] bds@[a])@,
                devices@[idx[a] as int],
                pool_uuid,
                mda_data_size.spec_bytes(),
                match key_desc {
                    Some(k) => Some(EncryptionInfoView { key_description: k@, clevis_info: None }),
                    None => None,
                },
            ) by {
                assert(fresh_member(bds@[a]@, devices@[idx[a] as int], pool_uuid, mda_data_size.spec_bytes(), enc_view(encryption_info)));
            }
        }
        Ok(BlockDevMgr { block_devs: bds, last_update_time: None })
    }

    /// Add the candidates `devices` to the pool `pool_uuid`. `key_unlocks`
    /// tells whether the key registered for an encrypted pool unlocks one of
    /// its members. Fails with `Invalid`, changing nothing, if and only if
    /// the pool is another pool, a candidate is rejected (a device number
    /// that is a member's counts as claimed), the key does not unlock, or
    /// the capacities add up past what a `u64` counts; fails otherwise only
    /// with `InitializationFailed`, when no fresh identifier could be drawn
    /// for a joining candidate. On success the selected candidates join at
    /// the end, with the pool's encryption and slot capacity, and their
    /// identifiers are returned. When no candidate joins (all are members
    /// already), it succeeds with nothing added.
    pub fn add(&mut self, pool_uuid: PoolUuid, devices: &[DeviceInfo], key_unlocks: bool) -> (r: Result<Vec<DevUuid>, StratisError>)
        requires
            old(self).wf(),
        ensures
            final(self).wf(),
            final(self).last_update() == old(self).last_update(),
            r is Err ==> final(self).devs() == old(self).devs(),
            r is Err ==> r == Err::<Vec<DevUuid>, StratisError>(StratisError::Invalid) || r == Err::<Vec<DevUuid>, StratisError>(StratisError::InitializationFailed),
            (old(self).devs().len() > 0 && old(self).devs()[0]@.pool_uuid != pool_uuid)
                || any_rejected(pool_uuid, uuids_of(old(self).devs()), devices_of(old(self).devs()), devices@)
                || (pool_encryption(old(self).devs()) is Some && !key_unlocks)
                ==> r == Err::<Vec<DevUuid>, StratisError>(StratisError::Invalid),
            r == Err::<Vec<DevUuid>, StratisError>(StratisError::Invalid) ==>
                (old(self).devs().len() > 0 && old(self).devs()[0]@.pool_uuid != pool_uuid)
                || any_rejected(pool_uuid, uuids_of(old(self).devs()), devices_of(old(self).devs()), devices@)
                || (pool_encryption(old(self).devs()) is Some && !key_unlocks)
                || exists|idx: Seq<usize>|
                is_selection(pool_uuid, uuids_of(old(self).devs()), devices_of(old(self).devs()), devices@, idx)
                    && sum_sizes(old(self).devs(), SizeKind::Total) + idx_size(devices@, idx) > u64::MAX,
            r == Err::<Vec<DevUuid>, StratisError>(StratisError::InitializationFailed) ==> exists|i: int|
                0 <= i < devices.len() && joins(pool_uuid, uuids_of(old(self).devs()), devices_of(old(self).devs()), devices@, i),
            !(old(self).devs().len() > 0 && old(self).devs()[0]@.pool_uuid != pool_uuid)
                && !any_rejected(pool_uuid, uuids_of(old(self).devs()), devices_of(old(self).devs()), devices@)
                && !(pool_encryption(old(self).devs()) is Some && !key_unlocks)
                && (forall|i: int| 0 <= i < devices.len() ==> !joins(pool_uuid, uuids_of(old(self).devs()), devices_of(old(self).devs()), devices@, i))
                ==> r is Ok && r.unwrap().len() == 0 && final(self).devs() == old(self).devs(),
            r is Ok ==> exists|idx: Seq<usize>|
                is_selection(pool_uuid, uuids_of(old(self).devs()), devices_of(old(self).devs()), devices@, idx)
                    && r.unwrap().len() == idx.len()
                    && final(self).devs().len() == old(self).devs().len() + idx.len()
                    && final(self).devs().take(old(self).devs().len() as int) == old(self).devs()
                    && forall|a: int|
                    0 <= a < idx.len() ==> r.unwrap()[a] == final(self).devs()[old(self).devs().len() + a]@.uuid
                        && #[trigger] fresh_member(
                        final(self).devs()[old(self).devs().len() + a]@,
                        devices@[idx[a] as int],
                        pool_uuid,
                        pool_mda_bytes(old(self).devs()),
                        pool_encryption(old(self).devs()),
                    ),
    {
        let ghost s0 = self.block_devs@;
        if self.block_devs.len() > 0 && self.block_devs[0].pool_uuid() != pool_uuid {
            return Err(StratisError::Invalid);
        }
        let current = self.current_uuids();
        let held = self.current_devices();
        let idx = match process_and_verify_devices(pool_uuid, &current, &held, devices) {
            Ok(idx) => idx,
            Err(e) => {
                return Err(e);
            },
        };
        proof {
            if idx.len() > 0 {
                assert(joins(pool_uuid, current@, held@, devices@, idx@[0] as int));
            }
        }
        let is_encrypted = self.is_encrypted();
        if is_encrypted && !key_unlocks {
            return Err(StratisError::Invalid);
        }
        let (mda, encryption_info) = if self.block_devs.len() > 0 {
            (self.block_devs[0].mda_size(), crate::types::clone_encryption(self.block_devs[0].encryption_info()))
        } else {
            (MDADataSize::default(), None)
        };
        let bds = match initialize_devices(devices, &idx, pool_uuid, mda, &encryption_info, &current) {
            Ok(bds) => bds,
            Err(e) => {
                return Err(e);
            },
        };
        proof {
            lemma_sum_idx_size(bds@, devices@, idx@);
        }
        let old_total = self.size();
        let new_total = match total_of(&bds) {
            Some(t) => t,
            None => {
                return Err(StratisError::Invalid);
            },
        };
        if old_total.0 as u128 + new_total as u128 > u64::MAX as u128 {
            return Err(StratisError::Invalid);
        }
        let mut uuids: Vec<DevUuid> = Vec::new();
        let mut i: usize = 0;
        while i < bds.len()
            invariant
                i <= bds.len(),
                uuids.len() == i,
                forall|a: int| 0 <= a < i ==> uuids[a] == (#[trigger] bds@[a])@.uuid,
            decreases bds.len() - i,
        {
            uuids.push(bds[i].uuid());
            i = i + 1;
        }
        let ghost added = bds@;
        let mut bds = bds;
        self.block_devs.append(&mut bds);
        proof {
            let t = self.block_devs@;
            assert(t == s0 + added);
            lemma_sum_concat(s0, added, SizeKind::Total);
            assert forall|i: int| 0 <= i < t.len() implies (#[trigger] t[i]).wf() by {
                if i >= s0.len() {
                    assert(t[i] == added[i - s0.len()]);
                }
            }
            assert forall|i: int| 0 <= i < t.len() implies (#[trigger] t[i])@.pool_uuid == t[0]@.pool_uuid && t[i]@.encryption == t[0]@.encryption by {
                if i >= s0.len() {
                    assert(t[i] == added[i - s0.len()]);
                }
                if s0.len() == 0 {
                    assert(t[0] == added[0]);
                }
            }
            assert forall|a: int, b: int| 0 <= a < b < t.len() implies (#[trigger] t[a])@.uuid != (#[trigger] t[b])@.uuid && t[a]@.device != t[b]@.device by {
                if b >= s0.len() {
                    assert(t[b] == added[b - s0.len()]);
                    if a >= s0.len() {
                        assert(t[a] == added[a - s0.len()]);
                        lemma_selection_devices(pool_uuid, current@, held@, devices@, idx@, a - s0.len(), b - s0.len());
                    } else {
                        assert(uuids_of(s0)[a] == s0[a]@.uuid);
                        assert(current@.contains(t[a]@.uuid));
                        let c = idx@[b - s0.len()] as int;
                        assert(joins(pool_uuid, current@, held@, devices@, c));
                        assert(held@[a] == s0[a]@.device);
                        if t[a]@.device == t[b]@.device {
                            assert(held@.contains(devices@[c].device));
                        }
                    }
                } else {
                    assert(t[a] == s0[a] && t[b] == s0[b]);
                }
            }
            if added.len() == 0 {
                assert(t =~= s0);
            }
            assert(t.take(s0.len() as int) =~= s0);
            assert forall|a: int| 0 <= a < idx.len() implies uuids@[a] == t[s0.len() + a]@.uuid && #[trigger] fresh_member(
                t[s0.len() + a]@,
                devices@[idx@[a] as int],
                pool_uuid,
                pool_mda_bytes(s0),
                pool_encryption(s0),
            ) by {
                assert(t[s0.len() + a] == added[a]);
            }
        }
        Ok(uuids)
    }

    /// Take the members with identifiers `uuids` out of the pool, keeping
    /// the order of the others, and return them for wiping. Fails with
    /// `NotFound`, changing nothing, if some identifier is not a member's.
    pub fn remove_blockdevs(&mut self, uuids: &[DevUuid]) -> (r: Result<Vec<StratBlockDev>, StratisError>)
        requires
            old(self).wf(),
        ensures
            final(self).wf(),
            final(self).last_update() == old(self).last_update(),
            r is Err <==> exists|u: int| 0 <= u < uuids.len() && !uuids_of(old(self).devs()).contains(#[trigger] uuids[u]),
            r is Err ==> r == Err::<Vec<StratBlockDev>, StratisError>(StratisError::NotFound) && final(self).devs() == old(self).devs(),
            r is Ok ==> final(self).devs() == old(self).devs().filter(unlisted(uuids@)),
            r is Ok ==> r.unwrap()@ == old(self).devs().filter(listed(uuids@)),
    {
        let ghost s0 = self.block_devs@;
        let current = self.current_uuids();
        let mut u: usize = 0;
        while u < uuids.len()
            invariant
                u <= uuids.len(),
                current@ == uuids_of(s0),
                s0 == self.block_devs@,
                s0 == old(self).block_devs@,
                *self == *old(self),
                devs_wf(s0),
                forall|q: int| 0 <= q < u ==> uuids_of(s0).contains(#[trigger] uuids[q]),
            decreases uuids.len() - u,
        {
            if !crate::devices::contains_uuid(&current, uuids[u]) {
                return Err(StratisError::NotFound);
            }
            u = u + 1;
        }
        let listed_uuids = vstd::slice::slice_to_vec(uuids);
        let mut kept: Vec<StratBlockDev> = Vec::new();
        let mut removed: Vec<StratBlockDev> = Vec::new();
        let mut rest: Vec<StratBlockDev> = Vec::new();
        std::mem::swap(&mut rest, &mut self.block_devs);
        let ghost n = s0.len();
        proof {
            reveal(Seq::filter);
            assert(s0.take(0) =~= Seq::<StratBlockDev>::empty());
            assert(rest@ =~= s0.skip(0));
        }
        while rest.len() > 0
            invariant
                listed_uuids@ == uuids@,
                n == s0.len(),
                rest@.len() <= n,
                rest@ == s0.skip(n - rest@.len()),
                kept@ == s0.take(n - rest@.len()).filter(unlisted(uuids@)),
                removed@ == s0.take(n - rest@.len()).filter(listed(uuids@)),
            decreases rest.len(),
        {
            let ghost i = n - rest@.len();
            let d = rest.remove(0);
            proof {
                assert(d == s0[i]);
                assert(s0.take(i + 1) =~= s0.take(i).push(d));
                s0.take(i).lemma_filter_push(d, unlisted(uuids@));
                s0.take(i).lemma_filter_push(d, listed(uuids@));
                assert(rest@ =~= s0.skip(i + 1));
            }
            if crate::devices::contains_uuid(&listed_uuids, d.uuid()) {
                removed.push(d);
            } else {
                kept.push(d);
            }
        }
        proof {
            assert(s0.take(n as int) =~= s0);
            lemma_filter_wf(s0, unlisted(uuids@));
        }
        self.block_devs = kept;
        Ok(removed)
    }

    /// Whether binding the pool to key escrow with `pin` and `config` needs
    /// work: `Ok(false)` when exactly this binding is in place already,
    /// `Ok(true)` when there is none; `NotEncrypted` for a plain pool and
    /// `BindingConflict` when another binding is in place.
    pub fn bind_clevis_check(&self, pin: &String, config: &String) -> (r: Result<bool, StratisError>)
        requires
            self.wf(),
        ensures
            pool_encryption(self.devs()) is None ==> r == Err::<bool, StratisError>(StratisError::NotEncrypted),
            pool_encryption(self.devs()) is Some ==> r == match pool_encryption(self.devs()).unwrap().clevis_info {
                None => Ok::<bool, StratisError>(true),
                Some(c) => if c == (pin@, config@) {
                    Ok::<bool, StratisError>(false)
                } else {
                    Err::<bool, StratisError>(StratisError::BindingConflict)
                },
            },
    {
        match self.encryption_info() {
            None => Err(StratisError::NotEncrypted),
            Some(info) => match &info.clevis_info {
                None => Ok(true),
                Some(c) => {
                    let wanted = ClevisInfo { pin: pin.clone(), config: config.clone() };
                    if clevis_info_eq(c, &wanted) {
                        Ok(false)
                    } else {
                        Err(StratisError::BindingConflict)
                    }
                },
            },
        }
    }

    /// Whether removing the pool's key-escrow binding needs work: `true`
    /// when a binding is in place, `false` when none is, which includes a
    /// pool that is not encrypted.
    pub fn unbind_clevis_check(&self) -> (r: Result<bool, StratisError>)
        requires
            self.wf(),
        ensures
            r == Ok::<bool, StratisError>(
                pool_encryption(self.devs()) is Some && pool_encryption(self.devs()).unwrap().clevis_info is Some,
            ),
    {
        match self.encryption_info() {
            None => Ok(false),
            Some(info) => Ok(info.clevis_info.is_some()),
        }
    }

    /// Record the key-escrow binding `info` (or its absence) on every
    /// member of an encrypted pool.
    pub fn set_clevis_info(&mut self, info: Option<ClevisInfo>)
        requires
            old(self).wf(),
            pool_encryption(old(self).devs()) is Some,
        ensures
            final(self).wf(),
            final(self).last_update() == old(self).last_update(),
            final(self).devs().len() == old(self).devs().len(),
            forall|k: int|
                0 <= k < old(self).devs().len() ==> (#[trigger] final(self).devs()[k])@ == with_clevis(
                    old(self).devs()[k]@,
                    clevis_view(info),
                ),
    {
        let ghost s0 = self.block_devs@;
        let mut i: usize = 0;
        while i < self.block_devs.len()
            invariant
                s0 == old(self).block_devs@,
                self.last_update_time == old(self).last_update_time,
                devs_wf(s0),
                s0.len() > 0,
                s0[0]@.encryption is Some,
                self.block_devs@.len() == s0.len(),
                i <= s0.len(),
                forall|k: int| 0 <= k < i ==> (#[trigger] self.block_devs@[k])@ == with_clevis(s0[k]@, clevis_view(info)),
                forall|k: int| i <= k < s0.len() ==> (#[trigger] self.block_devs@[k]) == s0[k],
            decreases s0.len() - i,
        {
            let c = match &info {
                Some(c) => Some(ClevisInfo { pin: c.pin.clone(), config: c.config.clone() }),
                None => None,
            };
            proof {
                assert(s0[i as int]@.encryption == s0[0]@.encryption);
            }
            self.block_devs[i].set_clevis_info(c);
            i = i + 1;
        }
        proof {
            let t = self.block_devs@;
            lemma_sum_same_total(s0, t);
            assert forall|k: int| 0 <= k < t.len() implies (#[trigger] t[k]).wf() && t[k]@.pool_uuid == t[0]@.pool_uuid && t[k]@.encryption == t[0]@.encryption by {
                assert(s0[k]@.encryption == s0[0]@.encryption);
                assert(s0[k]@.pool_uuid == s0[0]@.pool_uuid);
            }
            assert forall|a: int, b: int| 0 <= a < b < t.len() implies (#[trigger] t[a])@.uuid != (#[trigger] t[b])@.uuid && t[a]@.device != t[b]@.device by {
                assert(s0[a]@.uuid != s0[b]@.uuid && s0[a]@.device != s0[b]@.device);
            }
        }
    }

    /// The device numbers of the members, in order.
    pub fn current_devices(&self) -> (r: Vec<Device>)
        ensures
            r@ == devices_of(self.devs()),
    {
        let mut r: Vec<Device> = Vec::new();
        let mut i: usize = 0;
        while i < self.block_devs.len()
            invariant
                i <= self.block_devs.len(),
                r@ == devices_of(self.devs().take(i as int)),
            decreases self.block_devs.len() - i,
        {
            proof {
                assert(devices_of(self.devs().take(i + 1)) =~= devices_of(self.devs().take(i as int)).push(self.devs()[i as int]@.device));
            }
            r.push(*self.block_devs[i].device());
            i = i + 1;
        }
        proof {
            assert(self.devs().take(i as int) =~= self.devs());
        }
        r
    }

    /// The identifiers of the members, in order.
    pub fn current_uuids(&self) -> (r: Vec<DevUuid>)
        ensures
            r@ == uuids_of(self.devs()),
    {
        let mut r: Vec<DevUuid> = Vec::new();
        let mut i: usize = 0;
        while i < self.block_devs.len()
            invariant
                i <= self.block_devs.len(),
                r@ == uuids_of(self.devs().take(i as int)),
            decreases self.block_devs.len() - i,
        {
            proof {
                assert(uuids_of(self.devs().take(i + 1)) =~= uuids_of(self.devs().take(i as int)).push(self.devs()[i as int]@.uuid));
            }
            r.push(self.block_devs[i].uuid());
            i = i + 1;
        }
        proof {
            assert(self.devs().take(i as int) =~= self.devs());
        }
        r
    }

    /// The encryption description that all members share, if any.
    pub fn encryption_info(&self) -> (r: Option<&EncryptionInfo>)
        requires
            self.wf(),
        ensures
            match r {
                Some(e) => pool_encryption(self.devs()) == Some(e@),
                None => pool_encryption(self.devs()) is None,
            },
    {
        if self.block_devs.len() == 0 {
            None
        } else {
            match self.block_devs[0].encryption_info() {
                Some(e) => Some(e),
                None => None,
            }
        }
    }

    pub fn is_encrypted(&self) -> (r: bool)
        requires
            self.wf(),
        ensures
            r == pool_encryption(self.devs()) is Some,
    {
        self.encryption_info().is_some()
    }

    /// The identifier and kernel device number of each member, in order.
    pub fn uuid_to_devno(&self) -> (r: Vec<(DevUuid, Device)>)
        ensures
            r.len() == self.devs().len(),
            forall|i: int|
                0 <= i < r.len() ==> (#[trigger] r[i]) == (self.devs()[i]@.uuid, self.devs()[i]@.device),
    {
        let mut r: Vec<(DevUuid, Device)> = Vec::new();
        let mut i: usize = 0;
        while i < self.block_devs.len()
            invariant
                i <= self.block_devs.len(),
                r.len() == i,
                forall|k: int|
                    0 <= k < i ==> (#[trigger] r[k]) == (self.devs()[k]@.uuid, self.devs()[k]@.device),
            decreases self.block_devs.len() - i,
        {
            r.push((self.block_devs[i].uuid(), *self.block_devs[i].device()));
            i = i + 1;
        }
        r
    }

    /// The members, in storage order.
    pub fn blockdevs(&self) -> (r: &Vec<StratBlockDev>)
        ensures
            r@ == self.devs(),
    {
        &self.block_devs
    }

    /// The index of the member with identifier `uuid`, if there is one.
    pub fn position_of(&self, uuid: DevUuid) -> (r: Option<usize>)
        ensures
            match r {
                Some(i) => i < self.devs().len() && self.devs()[i as int]@.uuid == uuid,
                None => forall|i: int| 0 <= i < self.devs().len() ==> (#[trigger] self.devs()[i])@.uuid != uuid,
            },
    {
        let mut i: usize = 0;
        while i < self.block_devs.len()
            invariant
                i <= self.block_devs.len(),
                forall|k: int| 0 <= k < i ==> (#[trigger] self.devs()[k])@.uuid != uuid,
            decreases self.block_devs.len() - i,
        {
            if self.block_devs[i].uuid() == uuid {
                return Some(i);
            }
            i = i + 1;
        }
        None
    }

    /// The member with identifier `uuid`, if there is one.
    pub fn get_blockdev_by_uuid(&self, uuid: DevUuid) -> (r: Option<&StratBlockDev>)
        ensures
            match r {
                Some(d) => exists|i: int| 0 <= i < self.devs().len() && self.devs()[i] == *d && d@.uuid == uuid,
                None => forall|i: int| 0 <= i < self.devs().len() ==> (#[trigger] self.devs()[i])@.uuid != uuid,
            },
    {
        match self.position_of(uuid) {
            Some(i) => Some(&self.block_devs[i]),
            None => None,
        }
    }
}

} // verus!
