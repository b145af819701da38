//! Discovery of the devices that belong to pools: which entries of the
//! kernel device database to trust, and the map from pools to their
//! devices that the scan accumulates.
use vstd::prelude::*;

use devicemapper::Device;

use crate::devices::same_device;
use crate::types::PoolUuid;

verus! {

/// What the kernel device database records of one block device.
#[derive(Debug)]
pub struct UdevEntry {
    /// Whether the database has finished recording the device.
    pub initialized: bool,
    pub devnode: Option<String>,
    pub devnum: Option<Device>,
    /// The file-system type signature found on the device.
    pub fs_type: Option<String>,
    /// Whether the device is one path of a multipath aggregate.
    pub multipath_member: bool,
    /// Whether a volume manager, RAID or multipath layer claims the device.
    pub other_claim: bool,
}

/// Who owns a device, as the database tells.
#[derive(Debug, Clone, Copy, PartialEq, Eq, Structural)]
pub enum UdevOwnership {
    Stratis,
    Unowned,
    Theirs,
    MultipathMember,
}

/// What reading a device's header gave.
#[derive(Debug, Clone, Copy, PartialEq, Eq, Structural)]
pub enum HeaderProbe {
    /// The device could not be opened, or its header could not be read.
    Unreadable,
    /// The device holds no pool header.
    Absent,
    /// The device belongs to this pool.
    Pool(PoolUuid),
}

/// The file-system type by which the database tags pool members.
pub open spec fn stratis_fs_type() -> Seq<char> {
    "stratis-pool"@
}

/// The ownership table: multipath members aside, a pool signature means a
/// pool's device, no signature and no other claim means unowned, and
/// anything else belongs to someone else.
pub open spec fn ownership_of(e: UdevEntry) -> UdevOwnership {
    if e.multipath_member {
        UdevOwnership::MultipathMember
    } else if e.fs_type is Some && e.fs_type.unwrap()@ == stratis_fs_type() {
        UdevOwnership::Stratis
    } else if e.fs_type is None && !e.other_claim {
        UdevOwnership::Unowned
    } else {
        UdevOwnership::Theirs
    }
}

pub fn is_stratis_fs_type(fs: &String) -> (r: bool)
    ensures
        r == (fs@ == stratis_fs_type()),
{
    let tag = "stratis-pool".to_owned();
    proof {
        reveal_strlit("stratis-pool");
    }
    *fs == tag
}

pub fn decide_ownership(e: &UdevEntry) -> (r: UdevOwnership)
    ensures
        r == ownership_of(*e),
{
    if e.multipath_member {
        return UdevOwnership::MultipathMember;
    }
    match &e.fs_type {
        Some(fs) => if is_stratis_fs_type(fs) {
            UdevOwnership::Stratis
        } else {
            UdevOwnership::Theirs
        },
        None => if e.other_claim {
            UdevOwnership::Theirs
        } else {
            UdevOwnership::Unowned
        },
    }
}

/// Whether an entry is trusted by the scan: the primary scan, which sees
/// only entries tagged as pool members, skips uninitialized entries and
/// multipath members; the fallback scan, which sees every block device,
/// keeps initialized entries owned by a pool or by no one. Either needs a
/// device node and a device number.
pub open spec fn trusted(e: UdevEntry, fallback: bool) -> bool {
    &&& e.initialized
    &&& if fallback {
        ownership_of(e) == UdevOwnership::Stratis || ownership_of(e) == UdevOwnership::Unowned
    } else {
        !e.multipath_member
    }
    &&& e.devnode is Some
    &&& e.devnum is Some
}

/// Whether the scan trusts an entry enough to read its device's header.
pub fn is_trusted(e: &UdevEntry, fallback: bool) -> (r: bool)
    ensures
        r == trusted(*e, fallback),
{
    if !e.initialized || e.devnode.is_none() || e.devnum.is_none() {
        return false;
    }
    if fallback {
        match decide_ownership(e) {
            UdevOwnership::Stratis | UdevOwnership::Unowned => true,
            _ => false,
        }
    } else {
        !e.multipath_member
    }
}

/// The pool member that an entry and its header show, if any.
pub fn identify_device(e: &UdevEntry, probe: HeaderProbe, fallback: bool) -> (r: Option<(PoolUuid, Device, String)>)
    ensures
        r is Some <==> trusted(*e, fallback) && probe is Pool,
        r is Some ==> r.unwrap().0 == probe->Pool_0 && r.unwrap().1 == e.devnum.unwrap()
            && r.unwrap().2@ == e.devnode.unwrap()@,
{
    if !is_trusted(e, fallback) {
        return None;
    }
    match (&e.devnode, &e.devnum, probe) {
        (Some(node), Some(num), HeaderProbe::Pool(p)) => Some((p, *num, node.clone())),
        _ => None,
    }
}

/// The map of found devices: for each pool and device, the latest node.
pub open spec fn found_map(s: Seq<(PoolUuid, Device, Seq<char>)>) -> Map<(PoolUuid, Device), Seq<char>>
    decreases s.len(),
{
    if s.len() == 0 {
        Map::empty()
    } else {
        found_map(s.drop_last()).insert((s.last().0, s.last().1), s.last().2)
    }
}

/// The found devices of each pool, one entry per pool and device.
#[derive(Debug)]
pub struct PoolMap {
    entries: Vec<(PoolUuid, Device, String)>,
}

pub open spec fn entry_view(e: (PoolUuid, Device, String)) -> (PoolUuid, Device, Seq<char>) {
    (e.0, e.1, e.2@)
}

impl PoolMap {
    pub closed spec fn entries_view(&self) -> Seq<(PoolUuid, Device, Seq<char>)> {
        self.entries@.map_values(|e: (PoolUuid, Device, String)| entry_view(e))
    }

    pub open spec fn wf(&self) -> bool {
        forall|i: int, j: int|
            0 <= i < j < self.entries_view().len() ==> ((#[trigger] self.entries_view()[i]).0, self.entries_view()[i].1)
                != ((#[trigger] self.entries_view()[j]).0, self.entries_view()[j].1)
    }

    /// The node of each device of each pool.
    pub open spec fn view(&self) -> Map<(PoolUuid, Device), Seq<char>> {
        found_map(self.entries_view())
    }

    pub fn new() -> (r: PoolMap)
        ensures
            r.wf(),
            r.view() == Map::<(PoolUuid, Device), Seq<char>>::empty(),
    {
        let r = PoolMap { entries: Vec::new() };
        proof {
            assert(r.entries_view() =~= Seq::<(PoolUuid, Device, Seq<char>)>::empty());
        }
        r
    }

    /// Record that `device` of pool `pool` has node `devnode`.
    pub fn insert(&mut self, pool: PoolUuid, device: Device, devnode: String)
        requires
            old(self).wf(),
        ensures
            final(self).wf(),
            final(self).view() == old(self).view().insert((pool, device), devnode@),
    {
        let ghost s0 = self.entries_view();
        let mut i: usize = 0;
        while i < self.entries.len()
            invariant
                i <= self.entries.len(),
                s0 == self.entries_view(),
                s0 == old(self).entries_view(),
                forall|a: int, b: int| 0 <= a < b < s0.len() ==> ((#[trigger] s0[a]).0, s0[a].1) != ((#[trigger] s0[b]).0, s0[b].1),
                forall|k: int| 0 <= k < i ==> ((#[trigger] s0[k]).0, s0[k].1) != (pool, device),
            decreases self.entries.len() - i,
        {
            proof {
                assert(s0[i as int] == entry_view(self.entries@[i as int]));
            }
            if self.entries[i].0 == pool && same_device(&self.entries[i].1, &device) {
                let ghost x = (pool, device, devnode@);
                self.entries.set(i, (pool, device, devnode));
                proof {
                    let t = self.entries_view();
                    assert(t =~= s0.update(i as int, x));
                    lemma_found_map_update(s0, i as int, x);
                    assert forall|a: int, b: int| 0 <= a < b < t.len() implies ((#[trigger] t[a]).0, t[a].1) != ((#[trigger] t[b]).0, t[b].1) by {
                        assert((t[a].0, t[a].1) == (s0[a].0, s0[a].1));
                        assert((t[b].0, t[b].1) == (s0[b].0, s0[b].1));
                    }
                }
                return;
            }
            i = i + 1;
        }
        let ghost x = (pool, device, devnode@);
        self.entries.push((pool, device, devnode));
        proof {
            let t = self.entries_view();
            assert(t =~= s0.push(x));
            assert(t.drop_last() =~= s0);
            assert forall|a: int, b: int| 0 <= a < b < t.len() implies ((#[trigger] t[a]).0, t[a].1) != ((#[trigger] t[b]).0, t[b].1) by {
                assert(t[a] == s0[a]);
                if b < s0.len() {
                    assert(t[b] == s0[b]);
                }
            }
        }
    }

    /// The found devices as (pool, device, node) entries.
    pub fn entries(&self) -> (r: &Vec<(PoolUuid, Device, String)>)
        ensures
            r@.map_values(|e: (PoolUuid, Device, String)| entry_view(e)) == self.entries_view(),
    {
        &self.entries
    }
}

proof fn lemma_found_map_update(s: Seq<(PoolUuid, Device, Seq<char>)>, k: int, x: (PoolUuid, Device, Seq<char>))
    requires
        0 <= k < s.len(),
        (s[k].0, s[k].1) == (x.0, x.1),
        forall|i: int, j: int| 0 <= i < j < s.len() ==> ((#[trigger] s[i]).0, s[i].1) != ((#[trigger] s[j]).0, s[j].1),
    ensures
        found_map(s.update(k, x)) == found_map(s).insert((x.0, x.1), x.2),
    decreases s.len(),
{
    let t = s.update(k, x);
    if k == s.len() - 1 {
        assert(t.drop_last() =~= s.drop_last());
        assert(found_map(t) =~= found_map(s).insert((x.0, x.1), x.2));
    } else {
        let d = s.drop_last();
        assert(t.drop_last() =~= d.update(k, x));
        assert forall|i: int, j: int| 0 <= i < j < d.len() implies ((#[trigger] d[i]).0, d[i].1) != ((#[trigger] d[j]).0, d[j].1) by {
            assert(d[i] == s[i] && d[j] == s[j]);
        }
        lemma_found_map_update(d, k, x);
        assert(((s[k].0, s[k].1)) != (s.last().0, s.last().1));
        assert(found_map(t) =~= found_map(s).insert((x.0, x.1), x.2));
    }
}

/// Accumulate found devices into a map: for each pool and device, the node
/// of its last occurrence.
pub fn pool_map_of(found: Vec<(PoolUuid, Device, String)>) -> (r: PoolMap)
    ensures
        r.wf(),
        r.view() == found_map(found@.map_values(|e: (PoolUuid, Device, String)| entry_view(e))),
{
    let ghost fv = found@.map_values(|e: (PoolUuid, Device, String)| entry_view(e));
    let mut map = PoolMap::new();
    let mut rest = found;
    let ghost n = fv.len();
    proof {
        assert(fv.take(0) =~= Seq::<(PoolUuid, Device, Seq<char>)>::empty());
    }
    while rest.len() > 0
        invariant
            n == fv.len(),
            rest@.len() <= n,
            forall|k: int| 0 <= k < rest@.len() ==> entry_view(#[trigger] rest@[k]) == fv[n - rest@.len() + k],
            map.wf(),
            map.view() == found_map(fv.take(n - rest@.len())),
        decreases rest.len(),
    {
        let ghost i = n - rest@.len();
        let ghost r0 = rest@;
        let (p, d, node) = rest.remove(0);
        proof {
            assert(entry_view(r0[0]) == fv[i]);
            assert(entry_view((p, d, node)) == fv[i]);
            assert(fv.take(i + 1).drop_last() =~= fv.take(i));
            assert forall|k: int| 0 <= k < rest@.len() implies entry_view(#[trigger] rest@[k]) == fv[n - rest@.len() + k] by {
                assert(rest@[k] == r0[k + 1]);
                assert(entry_view(r0[k + 1]) == fv[n - r0.len() + k + 1]);
            }
        }
        map.insert(p, d, node);
    }
    proof {
        assert(fv.take(n as int) =~= fv);
    }
    map
}

} // verus!
