//! The mathematical model of a pool's members that the manager's
//! contracts speak of: size sums, well-formedness, how segments are carved
//! from free sectors, metadata stamps, and the lemmas about them.
use vstd::prelude::*;

use devicemapper::Sectors;

use crate::blockdev::{newer_than_slots, older_slot, StratBlockDev, StratBlockDevView};
use crate::runs::{covers, take_runs};
use crate::segment::BlkDevSegment;
use crate::types::{ClevisInfo, DevUuid, EncryptionInfoView, Timestamp};

verus! {

/// Which size of a member a sum adds up.
pub enum SizeKind {
    Total,
    Metadata,
    Available,
}

pub open spec fn dev_size(v: StratBlockDevView, k: SizeKind) -> nat {
    match k {
        SizeKind::Total => v.total_size,
        SizeKind::Metadata => v.metadata_size,
        SizeKind::Available => v.avail,
    }
}

/// The sum of one size over a sequence of members.
pub open spec fn sum_sizes(s: Seq<StratBlockDev>, k: SizeKind) -> nat
    decreases s.len(),
{
    if s.len() == 0 {
        0
    } else {
        sum_sizes(s.drop_last(), k) + dev_size(s.last()@, k)
    }
}

/// The sectors of a member that are handed out: neither metadata nor free.
pub open spec fn dev_allocated(v: StratBlockDevView) -> nat {
    (v.total_size - v.metadata_size - v.avail) as nat
}

/// The sectors handed out over a sequence of members.
pub open spec fn sum_allocated(s: Seq<StratBlockDev>) -> nat
    decreases s.len(),
{
    if s.len() == 0 {
        0
    } else {
        sum_allocated(s.drop_last()) + dev_allocated(s.last()@)
    }
}

/// The sum of a sequence of sector counts.
pub open spec fn sum_sectors(s: Seq<Sectors>) -> nat
    decreases s.len(),
{
    if s.len() == 0 {
        0
    } else {
        sum_sectors(s.drop_last()) + s.last().0 as nat
    }
}

/// Two views of a member that differ at most in their free runs.
pub open spec fn same_but_free(a: StratBlockDevView, b: StratBlockDevView) -> bool {
    b == (StratBlockDevView { free: b.free, avail: b.avail, ..a })
}

/// The members are well formed, share one pool and one encryption
/// description, have distinct identifiers and device numbers, and their
/// sizes fit a `u64`.
pub open spec fn devs_wf(s: Seq<StratBlockDev>) -> bool {
    &&& forall|i: int| 0 <= i < s.len() ==> (#[trigger] s[i]).wf()
    &&& forall|i: int| 0 <= i < s.len() ==> (#[trigger] s[i])@.pool_uuid == s[0]@.pool_uuid
    &&& forall|i: int| 0 <= i < s.len() ==> (#[trigger] s[i])@.encryption == s[0]@.encryption
    &&& forall|i: int, j: int|
        0 <= i < j < s.len() ==> (#[trigger] s[i])@.uuid != (#[trigger] s[j])@.uuid && s[i]@.device != s[j]@.device
    &&& sum_sizes(s, SizeKind::Total) <= u64::MAX
}

/// A segment carved from one of the members `devs`.
pub open spec fn from_member(devs: Seq<StratBlockDev>, b: BlkDevSegment) -> bool {
    exists|k: int|
        0 <= k < devs.len() && (#[trigger] devs[k])@.uuid == b.uuid && devs[k]@.device
            == b.segment.device
}

/// Every sector of segment `b` is in the runs `free`.
pub open spec fn seg_within(b: BlkDevSegment, free: Seq<(Sectors, Sectors)>) -> bool {
    forall|x: int|
        b.segment.start.0 <= x < b.segment.start.0 + b.segment.length.0 ==> #[trigger] covers(free, x)
}

/// No sector of segment `b` is in the runs `free`.
pub open spec fn seg_outside(b: BlkDevSegment, free: Seq<(Sectors, Sectors)>) -> bool {
    forall|x: int|
        b.segment.start.0 <= x < b.segment.start.0 + b.segment.length.0 ==> !#[trigger] covers(free, x)
}

/// Segment `b` was carved from a member of `before`: its sectors were free
/// there and are no longer free in the same member of `after`.
pub open spec fn carved_from(before: Seq<StratBlockDev>, after: Seq<StratBlockDev>, b: BlkDevSegment) -> bool {
    exists|k: int|
        0 <= k < before.len() && k < after.len() && (#[trigger] before[k])@.uuid == b.uuid
            && before[k]@.device == b.segment.device && seg_within(b, before[k]@.free) && seg_outside(
            b,
            after[k]@.free,
        )
}

/// Two segments that lie on different members, or on one member without
/// a shared sector.
pub open spec fn segs_disjoint(a: BlkDevSegment, b: BlkDevSegment) -> bool {
    ||| a.uuid != b.uuid
    ||| a.segment.start.0 + a.segment.length.0 <= b.segment.start.0
    ||| b.segment.start.0 + b.segment.length.0 <= a.segment.start.0
}

/// Segment `b` belongs to one of the first `j` members of `s`.
pub open spec fn from_first(s: Seq<StratBlockDev>, j: int, b: BlkDevSegment) -> bool {
    exists|k: int| 0 <= k < j && (#[trigger] s[k])@.uuid == b.uuid
}

/// The free runs of a member went from `before` to `after` by first fit:
/// some number of its lowest free sectors were taken.
pub open spec fn first_fit_from(before: StratBlockDevView, after: StratBlockDevView) -> bool {
    exists|n: nat| after.free == #[trigger] take_runs(before.free, n).1
}

/// Members were served in storage order and each by first fit: a member's
/// free runs changed only when every member before it has no free sector
/// left.
pub open spec fn served_in_order(before: Seq<StratBlockDev>, after: Seq<StratBlockDev>) -> bool {
    &&& forall|k: int| 0 <= k < before.len() && k < after.len() ==> first_fit_from(before[k]@, #[trigger] after[k]@)
    &&& forall|k: int, q: int|
        0 <= q < k < before.len() && k < after.len() && (#[trigger] after[k])@.free != before[k]@.free
            ==> (#[trigger] after[q])@.avail == 0
}

/// The free sectors of each member of `after` were free in `before`.
pub open spec fn free_shrinks(before: Seq<StratBlockDev>, after: Seq<StratBlockDev>) -> bool {
    forall|k: int, x: int|
        0 <= k < before.len() && k < after.len() && #[trigger] covers(after[k]@.free, x) ==> covers(
            before[k]@.free,
            x,
        )
}

/// Replacing a member by one that differs only in its free runs keeps the
/// members well formed and moves the free total by the difference.
pub(crate) proof fn lemma_update_free(s: Seq<StratBlockDev>, j: int, d: StratBlockDev)
    requires
        devs_wf(s),
        0 <= j < s.len(),
        same_but_free(s[j]@, d@),
        d.wf(),
    ensures
        devs_wf(s.update(j, d)),
        sum_sizes(s.update(j, d), SizeKind::Available) + s[j]@.avail == sum_sizes(s, SizeKind::Available) + d@.avail,
        sum_sizes(s.update(j, d), SizeKind::Total) == sum_sizes(s, SizeKind::Total),
        sum_sizes(s.update(j, d), SizeKind::Metadata) == sum_sizes(s, SizeKind::Metadata),
{
    lemma_sum_update(s, j, d, SizeKind::Available);
    lemma_sum_update(s, j, d, SizeKind::Total);
    lemma_sum_update(s, j, d, SizeKind::Metadata);
    let t = s.update(j, d);
    assert forall|i: int| 0 <= i < t.len() implies (#[trigger] t[i])@.pool_uuid == t[0]@.pool_uuid && t[i]@.encryption == t[0]@.encryption by {
        assert(s[i]@.pool_uuid == s[0]@.pool_uuid);
    }
    assert forall|a: int, b: int| 0 <= a < b < t.len() implies (#[trigger] t[a])@.uuid != (#[trigger] t[b])@.uuid && t[a]@.device != t[b]@.device by {
        assert(s[a]@.uuid != s[b]@.uuid && s[a]@.device != s[b]@.device);
    }
}

/// The stamp for a metadata save at time `now`: `now`, unless that is not
/// later than the previous stamp, in which case one nanosecond after it.
pub open spec fn stamp_after(now: Timestamp, last: Option<Timestamp>) -> Timestamp {
    match last {
        Some(l) => if now.nanos <= l.nanos { Timestamp { nanos: (l.nanos + 1) as i128 } } else { now },
        None => now,
    }
}

/// Whether a member can take pool metadata of `len` bytes stamped `t`.
pub open spec fn dev_accepts(v: StratBlockDevView, t: Timestamp, len: nat) -> bool {
    len <= v.max_metadata_size && newer_than_slots(v.slot_stamps, t)
}

/// A member view after a save stamped `t` went into its older slot.
pub open spec fn slot_saved(v: StratBlockDevView, t: Timestamp) -> StratBlockDevView {
    StratBlockDevView {
        slot_stamps: if older_slot(v.slot_stamps) == 0 {
            (Some(t), v.slot_stamps.1)
        } else {
            (v.slot_stamps.0, Some(t))
        },
        ..v
    }
}

/// `b` is a stamp strictly later than `a`, or than nothing.
pub open spec fn stamp_follows(a: Option<Timestamp>, b: Option<Timestamp>) -> bool {
    b is Some && (a is None || a.unwrap().nanos < b.unwrap().nanos)
}

/// The identifiers of a sequence of members.
pub open spec fn uuids_of(s: Seq<StratBlockDev>) -> Seq<DevUuid> {
    s.map_values(|d: StratBlockDev| d@.uuid)
}

/// The device numbers of a sequence of members.
pub open spec fn devices_of(s: Seq<StratBlockDev>) -> Seq<devicemapper::Device> {
    s.map_values(|d: StratBlockDev| d@.device)
}

/// The metadata slot capacity that new members of a pool get: that of its
/// first member, or the minimum for an empty pool.
pub open spec fn pool_mda_bytes(s: Seq<StratBlockDev>) -> nat {
    if s.len() == 0 {
        crate::types::MIN_MDA_DATA_SIZE as nat
    } else {
        s[0]@.max_metadata_size
    }
}

/// The members that a removal of `uuids` takes out.
pub open spec fn listed(uuids: Seq<DevUuid>) -> spec_fn(StratBlockDev) -> bool {
    |d: StratBlockDev| uuids.contains(d@.uuid)
}

/// The members that a removal of `uuids` keeps.
pub open spec fn unlisted(uuids: Seq<DevUuid>) -> spec_fn(StratBlockDev) -> bool {
    |d: StratBlockDev| !uuids.contains(d@.uuid)
}

/// The clevis part of an optional binding, as a view.
pub open spec fn clevis_view(c: Option<ClevisInfo>) -> Option<(Seq<char>, Seq<char>)> {
    match c {
        Some(c) => Some(c@),
        None => None,
    }
}

/// A member view with its key-escrow binding replaced.
pub open spec fn with_clevis(v: StratBlockDevView, c: Option<(Seq<char>, Seq<char>)>) -> StratBlockDevView {
    StratBlockDevView {
        encryption: Some(EncryptionInfoView { clevis_info: c, ..v.encryption.unwrap() }),
        ..v
    }
}

/// The encryption description of a pool: that of its first member.
pub open spec fn pool_encryption(s: Seq<StratBlockDev>) -> Option<EncryptionInfoView> {
    if s.len() == 0 {
        None
    } else {
        s[0]@.encryption
    }
}

/// Each member's capacity splits into metadata, free and handed-out
/// sectors, and so do the sums over the members.
pub proof fn lemma_sizes_bounded(s: Seq<StratBlockDev>)
    requires
        forall|i: int| 0 <= i < s.len() ==> (#[trigger] s[i]).wf(),
    ensures
        sum_sizes(s, SizeKind::Metadata) + sum_sizes(s, SizeKind::Available) + sum_allocated(s)
            == sum_sizes(s, SizeKind::Total),
    decreases s.len(),
{
    if s.len() > 0 {
        assert(s.last() == s[s.len() - 1]);
        lemma_sizes_bounded(s.drop_last());
    }
}

pub(crate) proof fn lemma_sum_concat(s: Seq<StratBlockDev>, t: Seq<StratBlockDev>, k: SizeKind)
    ensures
        sum_sizes(s + t, k) == sum_sizes(s, k) + sum_sizes(t, k),
    decreases t.len(),
{
    if t.len() == 0 {
        assert(s + t =~= s);
    } else {
        assert((s + t).drop_last() =~= s + t.drop_last());
        lemma_sum_concat(s, t.drop_last(), k);
    }
}

/// Keeping some of the members of a well-formed pool, in order, leaves a
/// well-formed pool whose members all agree with the first of the original.
pub(crate) proof fn lemma_filter_wf(s: Seq<StratBlockDev>, f: spec_fn(StratBlockDev) -> bool)
    requires
        devs_wf(s),
    ensures
        devs_wf(s.filter(f)),
        sum_sizes(s.filter(f), SizeKind::Total) <= sum_sizes(s, SizeKind::Total),
        forall|i: int| 0 <= i < s.filter(f).len() ==> s.contains(#[trigger] s.filter(f)[i]),
    decreases s.len(),
{
    reveal(Seq::filter);
    s.filter_lemma(f);
    if s.len() > 0 {
        let t = s.drop_last();
        assert forall|i: int| 0 <= i < t.len() implies (#[trigger] t[i]).wf() && t[i]@.pool_uuid == t[0]@.pool_uuid && t[i]@.encryption == t[0]@.encryption by {
            assert(t[i] == s[i] && t[0] == s[0]);
        }
        assert forall|a: int, b: int| 0 <= a < b < t.len() implies (#[trigger] t[a])@.uuid != (#[trigger] t[b])@.uuid && t[a]@.device != t[b]@.device by {
            assert(t[a] == s[a] && t[b] == s[b]);
        }
        lemma_prefix_sum_le(s, s.len() - 1, SizeKind::Total);
        assert(s.take(s.len() - 1) =~= t);
        lemma_filter_wf(t, f);
        let u = t.filter(f);
        let x = s.last();
        assert(x == s[s.len() - 1]);
        if f(x) {
            let v = u.push(x);
            assert(s.filter(f) == v);
            lemma_sum_push(u, x, SizeKind::Total);
            assert forall|i: int| 0 <= i < v.len() implies s.contains(#[trigger] v[i]) by {
                if i < u.len() {
                    assert(t.contains(u[i]));
                    let w = choose|w: int| 0 <= w < t.len() && t[w] == u[i];
                    assert(s[w] == t[w]);
                }
            }
            assert forall|i: int| 0 <= i < v.len() implies (#[trigger] v[i]).wf() && v[i]@.pool_uuid == v[0]@.pool_uuid && v[i]@.encryption == v[0]@.encryption by {
                assert(s.contains(v[i]) && s.contains(v[0]));
            }
            assert forall|a: int, b: int| 0 <= a < b < v.len() implies (#[trigger] v[a])@.uuid != (#[trigger] v[b])@.uuid && v[a]@.device != v[b]@.device by {
                if b < u.len() {
                    assert(v[a] == u[a] && v[b] == u[b]);
                } else {
                    assert(v[a] == u[a]);
                    assert(t.contains(u[a]));
                    let w = choose|w: int| 0 <= w < t.len() && t[w] == u[a];
                    assert(s[w] == t[w]);
                    assert(s[w]@.uuid != s[s.len() - 1]@.uuid && s[w]@.device != s[s.len() - 1]@.device);
                }
            }
        } else {
            assert(s.filter(f) == u);
            assert forall|i: int| 0 <= i < u.len() implies s.contains(#[trigger] u[i]) by {
                assert(t.contains(u[i]));
                let w = choose|w: int| 0 <= w < t.len() && t[w] == u[i];
                assert(s[w] == t[w]);
            }
        }
    }
}

pub(crate) proof fn lemma_sum_same_total(s: Seq<StratBlockDev>, t: Seq<StratBlockDev>)
    requires
        s.len() == t.len(),
        forall|i: int| 0 <= i < s.len() ==> (#[trigger] t[i])@.total_size == s[i]@.total_size,
    ensures
        sum_sizes(s, SizeKind::Total) == sum_sizes(t, SizeKind::Total),
    decreases s.len(),
{
    if s.len() > 0 {
        assert(t[t.len() - 1]@.total_size == s[s.len() - 1]@.total_size);
        lemma_sum_same_total(s.drop_last(), t.drop_last());
    }
}

pub(crate) proof fn lemma_sum_same(s: Seq<StratBlockDev>, t: Seq<StratBlockDev>, k: SizeKind)
    requires
        s.len() == t.len(),
        forall|i: int| 0 <= i < s.len() ==> same_but_free(s[i]@, (#[trigger] t[i])@),
        !(k is Available),
    ensures
        sum_sizes(s, k) == sum_sizes(t, k),
    decreases s.len(),
{
    if s.len() > 0 {
        assert(same_but_free(s[s.len() - 1]@, t[t.len() - 1]@));
        lemma_sum_same(s.drop_last(), t.drop_last(), k);
    }
}

pub(crate) proof fn lemma_sum_update(s: Seq<StratBlockDev>, j: int, d: StratBlockDev, k: SizeKind)
    requires
        0 <= j < s.len(),
    ensures
        sum_sizes(s.update(j, d), k) + dev_size(s[j]@, k) == sum_sizes(s, k) + dev_size(d@, k),
    decreases s.len(),
{
    let t = s.update(j, d);
    if j == s.len() - 1 {
        assert(t.drop_last() =~= s.drop_last());
    } else {
        assert(t.drop_last() =~= s.drop_last().update(j, d));
        lemma_sum_update(s.drop_last(), j, d, k);
    }
}

pub(crate) proof fn lemma_sum_zero(s: Seq<StratBlockDev>)
    requires
        forall|i: int| 0 <= i < s.len() ==> (#[trigger] s[i])@.avail == 0,
    ensures
        sum_sizes(s, SizeKind::Available) == 0,
    decreases s.len(),
{
    if s.len() > 0 {
        assert(s.last() == s[s.len() - 1]);
        lemma_sum_zero(s.drop_last());
    }
}

pub(crate) proof fn lemma_sum_push(s: Seq<StratBlockDev>, d: StratBlockDev, k: SizeKind)
    ensures
        sum_sizes(s.push(d), k) == sum_sizes(s, k) + dev_size(d@, k),
{
    assert(s.push(d).drop_last() =~= s);
}

pub(crate) proof fn lemma_sectors_prefix(s: Seq<Sectors>, i: int)
    requires
        0 <= i < s.len(),
    ensures
        sum_sectors(s.take(i + 1)) == sum_sectors(s.take(i)) + s[i].0,
        sum_sectors(s.take(i + 1)) <= sum_sectors(s),
    decreases s.len() - i,
{
    assert(s.take(i + 1).drop_last() =~= s.take(i));
    if i + 1 < s.len() {
        lemma_sectors_prefix(s, i + 1);
    } else {
        assert(s.take(i + 1) =~= s);
    }
}

/// A sample without repetition from distinct items that is as long as the
/// items holds each of them.
pub(crate) proof fn lemma_sample_all(c: Seq<usize>, t: Seq<usize>, x: usize)
    requires
        c.no_duplicates(),
        t.no_duplicates(),
        t.len() == c.len(),
        forall|i: int| 0 <= i < t.len() ==> c.contains(#[trigger] t[i]),
        c.contains(x),
    ensures
        t.contains(x),
{
    c.unique_seq_to_set();
    t.unique_seq_to_set();
    assert forall|y: usize| t.to_set().contains(y) implies c.to_set().contains(y) by {
        let i = choose|i: int| 0 <= i < t.len() && t[i] == y;
        assert(c.contains(t[i]));
    }
    vstd::set_lib::lemma_subset_equality(t.to_set(), c.to_set());
    assert(c.to_set().contains(x));
}

/// Replacing a member by one that differs only in its metadata slots keeps
/// the members well formed.
pub(crate) proof fn lemma_update_slots(s: Seq<StratBlockDev>, j: int, d: StratBlockDev)
    requires
        devs_wf(s),
        0 <= j < s.len(),
        d@ == (StratBlockDevView { slot_stamps: d@.slot_stamps, ..s[j]@ }),
        d.wf(),
    ensures
        devs_wf(s.update(j, d)),
{
    lemma_sum_update(s, j, d, SizeKind::Total);
    let t = s.update(j, d);
    assert forall|i: int| 0 <= i < t.len() implies (#[trigger] t[i])@.pool_uuid == t[0]@.pool_uuid && t[i]@.encryption == t[0]@.encryption by {
        assert(s[i]@.pool_uuid == s[0]@.pool_uuid);
    }
    assert forall|a: int, b: int| 0 <= a < b < t.len() implies (#[trigger] t[a])@.uuid != (#[trigger] t[b])@.uuid && t[a]@.device != t[b]@.device by {
        assert(s[a]@.uuid != s[b]@.uuid && s[a]@.device != s[b]@.device);
    }
}

pub(crate) proof fn lemma_prefix_sum_le(s: Seq<StratBlockDev>, i: int, k: SizeKind)
    requires
        0 <= i <= s.len(),
    ensures
        sum_sizes(s.take(i), k) <= sum_sizes(s, k),
    decreases s.len() - i,
{
    if i < s.len() {
        lemma_prefix_sum_le(s, i + 1, k);
        assert(s.take(i + 1).drop_last() =~= s.take(i));
    } else {
        assert(s.take(i) =~= s);
    }
}

} // verus!
