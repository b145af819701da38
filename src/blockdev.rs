//! One member device of a pool: its identity, its reserved metadata region,
//! its free sectors, the rotation of its two metadata slots and its
//! encryption description.
use vstd::prelude::*;

use devicemapper::{Bytes, Device, Sectors};

use crate::runs::{
    covers, lemma_runs_total_push, lemma_take_runs, min_nat, runs_below, runs_sorted, runs_total, runs_within,
    take_runs,
};
use crate::types::{
    enc_view, reserved_sectors, ClevisInfo, DevUuid, EncryptionInfo, EncryptionInfoView,
    MDADataSize, PoolUuid, StratisError, Timestamp, MAX_MDA_DATA_SIZE, MIN_MDA_DATA_SIZE,
};

verus! {

/// The mathematical value of a member device.
pub struct StratBlockDevView {
    pub uuid: DevUuid,
    pub pool_uuid: PoolUuid,
    pub device: Device,
    pub physical_path: Seq<char>,
    /// The capacity of the device, in sectors.
    pub total_size: nat,
    /// The reserved metadata region `[0, metadata_size)`, in sectors.
    pub metadata_size: nat,
    /// The most bytes of pool metadata that one slot can hold.
    pub max_metadata_size: nat,
    /// The free sector runs, ascending.
    pub free: Seq<(Sectors, Sectors)>,
    /// The number of free sectors.
    pub avail: nat,
    /// The timestamps of the two metadata slots.
    pub slot_stamps: (Option<Timestamp>, Option<Timestamp>),
    pub encryption: Option<EncryptionInfoView>,
}

/// A member device of a pool.
#[derive(Debug)]
pub struct StratBlockDev {
    uuid: DevUuid,
    pool_uuid: PoolUuid,
    device: Device,
    physical_path: String,
    total_size: Sectors,
    metadata_size: Sectors,
    max_metadata_size: Bytes,
    free: Vec<(Sectors, Sectors)>,
    avail: Sectors,
    slot_stamps: (Option<Timestamp>, Option<Timestamp>),
    encryption_info: Option<EncryptionInfo>,
}

impl View for StratBlockDev {
    type V = StratBlockDevView;

    closed spec fn view(&self) -> StratBlockDevView {
        StratBlockDevView {
            uuid: self.uuid,
            pool_uuid: self.pool_uuid,
            device: self.device,
            physical_path: self.physical_path@,
            total_size: self.total_size.0 as nat,
            metadata_size: self.metadata_size.0 as nat,
            max_metadata_size: self.max_metadata_size.0 as nat,
            free: self.free@,
            avail: self.avail.0 as nat,
            slot_stamps: self.slot_stamps,
            encryption: enc_view(self.encryption_info),
        }
    }
}

/// The free runs are sorted inside the data region, and `avail` counts them.
pub open spec fn dev_wf(v: StratBlockDevView) -> bool {
    &&& v.total_size <= u64::MAX
    &&& MIN_MDA_DATA_SIZE <= v.max_metadata_size <= MAX_MDA_DATA_SIZE
    &&& v.metadata_size == reserved_sectors(v.max_metadata_size)
    &&& v.metadata_size + v.avail <= v.total_size
    &&& runs_sorted(v.free)
    &&& runs_within(v.free, v.metadata_size as int, v.total_size as int)
    &&& v.avail == runs_total(v.free)
}

/// The newer of two optional timestamps.
pub open spec fn newest_stamp(s: (Option<Timestamp>, Option<Timestamp>)) -> Option<Timestamp> {
    match s {
        (None, None) => None,
        (Some(a), None) => Some(a),
        (None, Some(b)) => Some(b),
        (Some(a), Some(b)) => if a.nanos >= b.nanos { Some(a) } else { Some(b) },
    }
}

/// The slot that the next save overwrites: an empty one, else the older.
pub open spec fn older_slot(s: (Option<Timestamp>, Option<Timestamp>)) -> usize {
    match s {
        (None, _) => 0,
        (Some(_), None) => 1,
        (Some(a), Some(b)) => if a.nanos <= b.nanos { 0 } else { 1 },
    }
}

/// Whether `t` is later than every timestamp in the slots.
pub open spec fn newer_than_slots(s: (Option<Timestamp>, Option<Timestamp>), t: Timestamp) -> bool {
    match newest_stamp(s) {
        None => true,
        Some(n) => n.nanos < t.nanos,
    }
}

impl StratBlockDev {
    pub open spec fn wf(&self) -> bool {
        dev_wf(self@)
    }

    /// A freshly initialized member: its whole data region
    /// `[metadata_size, total_size)` is free and no metadata is saved.
    pub fn new(
        uuid: DevUuid,
        pool_uuid: PoolUuid,
        device: Device,
        physical_path: String,
        total_size: Sectors,
        mda_size: MDADataSize,
        encryption_info: Option<EncryptionInfo>,
    ) -> (r: StratBlockDev)
        requires
            mda_size.wf(),
            reserved_sectors(mda_size.spec_bytes()) <= total_size.0,
        ensures
            r.wf(),
            r@.uuid == uuid,
            r@.pool_uuid == pool_uuid,
            r@.device == device,
            r@.physical_path == physical_path@,
            r@.total_size == total_size.0,
            r@.metadata_size == reserved_sectors(mda_size.spec_bytes()),
            r@.max_metadata_size == mda_size.spec_bytes(),
            r@.avail == total_size.0 - reserved_sectors(mda_size.spec_bytes()),
            r@.slot_stamps == (None::<Timestamp>, None::<Timestamp>),
            r@.encryption == enc_view(encryption_info),
    {
        let metadata_size = Sectors(mda_size.reserved());
        let max_metadata_size = Bytes(mda_size.bytes());
        let mut free: Vec<(Sectors, Sectors)> = Vec::new();
        let data = total_size.0 - metadata_size.0;
        if data > 0 {
            free.push((metadata_size, Sectors(data)));
        }
        proof {
            if data > 0 {
                assert(free@.drop_first() =~= Seq::<(Sectors, Sectors)>::empty());
                assert(free@[0] == (metadata_size, Sectors(data)));
                assert(runs_total(free@.drop_first()) == 0);
                assert(runs_total(free@) == data);
            } else {
                assert(runs_total(free@) == 0);
            }
        }
        StratBlockDev {
            uuid,
            pool_uuid,
            device,
            physical_path,
            total_size,
            metadata_size,
            max_metadata_size,
            free,
            avail: Sectors(data),
            slot_stamps: (None, None),
            encryption_info,
        }
    }

    pub fn uuid(&self) -> (r: DevUuid)
        ensures
            r == self@.uuid,
    {
        self.uuid
    }

    pub fn pool_uuid(&self) -> (r: PoolUuid)
        ensures
            r == self@.pool_uuid,
    {
        self.pool_uuid
    }

    pub fn device(&self) -> (r: &Device)
        ensures
            *r == self@.device,
    {
        &self.device
    }

    pub fn physical_path(&self) -> (r: &String)
        ensures
            r@ == self@.physical_path,
    {
        &self.physical_path
    }

    /// The number of free sectors.
    pub fn available(&self) -> (r: Sectors)
        ensures
            r.0 == self@.avail,
    {
        self.avail
    }

    /// The capacity of the device, in sectors.
    pub fn total_size(&self) -> (r: Sectors)
        ensures
            r.0 == self@.total_size,
    {
        self.total_size
    }

    /// The size of the reserved metadata region, in sectors.
    pub fn metadata_size(&self) -> (r: Sectors)
        ensures
            r.0 == self@.metadata_size,
    {
        self.metadata_size
    }

    /// The capacity of the device's metadata slots.
    pub fn mda_size(&self) -> (r: MDADataSize)
        requires
            self.wf(),
        ensures
            r.wf(),
            r.spec_bytes() == self@.max_metadata_size,
    {
        MDADataSize::new(self.max_metadata_size.0).unwrap()
    }

    /// The most bytes of pool metadata that the device can hold.
    pub fn max_metadata_size(&self) -> (r: Bytes)
        ensures
            r.0 == self@.max_metadata_size,
    {
        self.max_metadata_size
    }

    pub fn encryption_info(&self) -> (r: &Option<EncryptionInfo>)
        ensures
            enc_view(*r) == self@.encryption,
    {
        &self.encryption_info
    }

    /// The timestamp of the newest metadata saved on the device.
    pub fn last_saved(&self) -> (r: Option<Timestamp>)
        ensures
            r == newest_stamp(self@.slot_stamps),
    {
        match self.slot_stamps {
            (None, None) => None,
            (Some(a), None) => Some(a),
            (None, Some(b)) => Some(b),
            (Some(a), Some(b)) => if a.nanos >= b.nanos { Some(a) } else { Some(b) },
        }
    }

    /// Take up to `n` free sectors, first fit from the lowest: the runs
    /// returned are exactly what `take_runs` takes, they hold
    /// `min(n, available)` sectors, and they leave the free set.
    pub fn request_space(&mut self, n: Sectors) -> (r: Vec<(Sectors, Sectors)>)
        requires
            old(self).wf(),
        ensures
            final(self).wf(),
            (r@, final(self)@.free) == take_runs(old(self)@.free, n.0 as nat),
            runs_total(r@) == min_nat(n.0 as nat, old(self)@.avail),
            final(self)@.avail == old(self)@.avail - runs_total(r@),
            final(self)@ == (StratBlockDevView {
                free: final(self)@.free,
                avail: final(self)@.avail,
                ..old(self)@
            }),
            runs_sorted(r@),
            runs_within(r@, old(self)@.metadata_size as int, old(self)@.total_size as int),
            runs_below(r@, final(self)@.free),
            forall|x: int|
                #![trigger covers(old(self)@.free, x)]
                #![trigger covers(r@, x)]
                #![trigger covers(final(self)@.free, x)]
                covers(old(self)@.free, x) == (covers(r@, x) || covers(final(self)@.free, x)),
    {
        let ghost s = self.free@;
        let ghost lo = self.metadata_size.0 as int;
        let ghost hi = self.total_size.0 as int;
        let mut taken: Vec<(Sectors, Sectors)> = Vec::new();
        let mut rest: Vec<(Sectors, Sectors)> = Vec::new();
        let mut rem: u64 = n.0;
        let mut got: u64 = 0;
        let mut i: usize = 0;
        proof {
            lemma_take_runs(s, n.0 as nat, lo, hi);
            assert(s.skip(0) =~= s);
            assert(taken@ + take_runs(s.skip(0), rem as nat).0 =~= take_runs(s, n.0 as nat).0);
            assert(rest@ + take_runs(s.skip(0), rem as nat).1 =~= take_runs(s, n.0 as nat).1);
        }
        while i < self.free.len()
            invariant
                self.free@ == s,
                runs_sorted(s),
                runs_within(s, lo, hi),
                hi <= u64::MAX,
                i <= s.len(),
                got + rem == n.0,
                runs_total(taken@) == got,
                taken@ + take_runs(s.skip(i as int), rem as nat).0 == take_runs(s, n.0 as nat).0,
                rest@ + take_runs(s.skip(i as int), rem as nat).1 == take_runs(s, n.0 as nat).1,
            decreases s.len() - i,
        {
            let r = self.free[i];
            let ghost t = s.skip(i as int);
            proof {
                assert(t[0] == r);
                assert(t.drop_first() =~= s.skip(i + 1));
                assert(s.skip(i as int + 1) =~= s.skip(i + 1));
            }
            if rem == 0 {
                proof {
                    assert(take_runs(t, 0).1 == t);
                    assert(take_runs(s.skip(i + 1), 0).0 =~= Seq::<(Sectors, Sectors)>::empty());
                    assert(rest@.push(r) + s.skip(i + 1) =~= rest@ + t);
                    assert(taken@ + Seq::<(Sectors, Sectors)>::empty() =~= taken@);
                    assert(take_runs(t, 0).0 =~= Seq::<(Sectors, Sectors)>::empty());
                }
                rest.push(r);
            } else if r.1.0 <= rem {
                proof {
                    let u = take_runs(s.skip(i + 1), (rem - r.1.0) as nat);
                    assert(take_runs(t, rem as nat) == (seq![r] + u.0, u.1));
                    assert(taken@.push(r) + u.0 =~= taken@ + (seq![r] + u.0));
                    lemma_runs_total_push(taken@, r);
                }
                taken.push(r);
                rem = rem - r.1.0;
                got = got + r.1.0;
            } else {
                proof {
                    assert(r.0.0 + r.1.0 <= hi) by {
                        assert(s[i as int] == r);
                    }
                }
                let a = (r.0, Sectors(rem));
                let b = (Sectors(r.0.0 + rem), Sectors(r.1.0 - rem));
                proof {
                    assert(take_runs(t, rem as nat) == (seq![a], seq![b] + s.skip(i + 1)));
                    assert(take_runs(s.skip(i + 1), 0).0 =~= Seq::<(Sectors, Sectors)>::empty());
                    assert(take_runs(s.skip(i + 1), 0).1 == s.skip(i + 1));
                    assert(taken@.push(a) + Seq::<(Sectors, Sectors)>::empty() =~= taken@ + seq![a]);
                    assert(rest@.push(b) + s.skip(i + 1) =~= rest@ + (seq![b] + s.skip(i + 1)));
                    lemma_runs_total_push(taken@, a);
                }
                taken.push(a);
                rest.push(b);
                got = got + rem;
                rem = 0;
            }
            i = i + 1;
        }
        proof {
            assert(s.skip(i as int) =~= Seq::<(Sectors, Sectors)>::empty());
            assert(taken@ =~= take_runs(s, n.0 as nat).0);
            assert(rest@ =~= take_runs(s, n.0 as nat).1);
        }
        self.free = rest;
        self.avail = Sectors(self.avail.0 - got);
        taken
    }

    /// The slot that saving metadata of `len` bytes stamped `time` would
    /// overwrite: an error when the metadata does not fit or `time` is not
    /// later than what the slots hold.
    pub fn metadata_slot(&self, time: Timestamp, len: usize) -> (r: Result<usize, StratisError>)
        ensures
            len > self@.max_metadata_size ==> r == Err::<usize, StratisError>(
                StratisError::MetadataTooLarge,
            ),
            len <= self@.max_metadata_size && !newer_than_slots(self@.slot_stamps, time) ==> r
                == Err::<usize, StratisError>(StratisError::Invalid),
            len <= self@.max_metadata_size && newer_than_slots(self@.slot_stamps, time) ==> r
                == Ok::<usize, StratisError>(older_slot(self@.slot_stamps)),
    {
        if len as u64 > self.max_metadata_size.0 {
            return Err(StratisError::MetadataTooLarge);
        }
        match self.last_saved() {
            Some(t) => {
                if t.nanos >= time.nanos {
                    return Err(StratisError::Invalid);
                }
            },
            None => {},
        }
        match self.slot_stamps {
            (None, _) => Ok(0),
            (Some(_), None) => Ok(1),
            (Some(a), Some(b)) => if a.nanos <= b.nanos { Ok(0) } else { Ok(1) },
        }
    }

    /// Record that metadata of `len` bytes stamped `time` was written: the
    /// older slot now holds `time`. On error nothing changes.
    pub fn save_state(&mut self, time: Timestamp, len: usize) -> (r: Result<(), StratisError>)
        requires
            old(self).wf(),
        ensures
            final(self).wf(),
            r is Ok <==> (len <= old(self)@.max_metadata_size && newer_than_slots(
                old(self)@.slot_stamps,
                time,
            )),
            r is Err ==> *final(self) == *old(self),
            r is Ok ==> final(self)@ == (StratBlockDevView {
                slot_stamps: if older_slot(old(self)@.slot_stamps) == 0 {
                    (Some(time), old(self)@.slot_stamps.1)
                } else {
                    (old(self)@.slot_stamps.0, Some(time))
                },
                ..old(self)@
            }),
            r is Ok ==> newest_stamp(final(self)@.slot_stamps) == Some(time),
    {
        match self.metadata_slot(time, len) {
            Err(e) => Err(e),
            Ok(slot) => {
                if slot == 0 {
                    self.slot_stamps = (Some(time), self.slot_stamps.1);
                } else {
                    self.slot_stamps = (self.slot_stamps.0, Some(time));
                }
                Ok(())
            },
        }
    }

    /// Replace the key-escrow binding of an encrypted device.
    pub fn set_clevis_info(&mut self, info: Option<ClevisInfo>)
        requires
            old(self).wf(),
            old(self)@.encryption is Some,
        ensures
            final(self).wf(),
            final(self)@ == (StratBlockDevView {
                encryption: Some(
                    EncryptionInfoView {
                        clevis_info: match info {
                            Some(c) => Some(c@),
                            None => None,
                        },
                        ..old(self)@.encryption.unwrap()
                    },
                ),
                ..old(self)@
            }),
    {
        match &mut self.encryption_info {
            Some(e) => {
                e.clevis_info = info;
            },
            None => {},
        }
    }
}

} // verus!
