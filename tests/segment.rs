use devicemapper::{Device, LinearTargetParams, Sectors};

use stratisd::blockdev::StratBlockDev;
use stratisd::segment::{map_to_dm, record_segments, BlkDevSegment, Segment};
use stratisd::types::{DevUuid, MDADataSize, PoolUuid, StratisError, Timestamp};

fn seg(minor: u32, start: u64, length: u64) -> BlkDevSegment {
    BlkDevSegment::new(
        DevUuid(minor as u128),
        Segment::new(Device { major: 8, minor }, Sectors(start), Sectors(length)),
    )
}

#[test]
fn map_to_dm_tiles_logical_space() {
    let segs = vec![seg(1, 100, 10), seg(2, 0, 5), seg(1, 500, 7)];
    let table = map_to_dm(&segs);
    assert_eq!(table.len(), 3);
    assert_eq!(table[0].start, Sectors(0));
    assert_eq!(table[1].start, Sectors(10));
    assert_eq!(table[2].start, Sectors(15));
    assert_eq!(table[2].start.0 + table[2].length.0, 22);
    assert_eq!(
        table[1].params,
        LinearTargetParams { device: Device { major: 8, minor: 2 }, start_offset: Sectors(0) }
    );
    assert_eq!(table[2].params.start_offset, Sectors(500));
}

#[test]
fn map_to_dm_of_nothing_is_empty() {
    assert!(map_to_dm(&[]).is_empty());
}

#[test]
fn record_keeps_owner_and_range() {
    let segs = vec![seg(3, 40, 2)];
    let rec = record_segments(&segs);
    assert_eq!(rec.len(), 1);
    assert_eq!(rec[0].parent, DevUuid(3));
    assert_eq!(rec[0].start, Sectors(40));
    assert_eq!(rec[0].length, Sectors(2));
    assert_eq!(segs[0].to_segment().length, Sectors(2));
}

fn device(size: u64) -> StratBlockDev {
    StratBlockDev::new(
        DevUuid(1),
        PoolUuid(2),
        Device { major: 8, minor: 0 },
        "/dev/sda".to_string(),
        Sectors(size),
        MDADataSize::default(),
        None,
    )
}

#[test]
fn request_space_is_first_fit_and_partial() {
    let mut bd = device(10_000);
    let mda = bd.metadata_size().0;
    let avail = bd.available().0;
    assert_eq!(avail, 10_000 - mda);
    let r = bd.request_space(Sectors(100));
    assert_eq!(r, vec![(Sectors(mda), Sectors(100))]);
    let r = bd.request_space(Sectors(avail));
    assert_eq!(r, vec![(Sectors(mda + 100), Sectors(avail - 100))]);
    assert_eq!(bd.available(), Sectors(0));
    assert!(bd.request_space(Sectors(1)).is_empty());
}

#[test]
fn device_slots_rotate() {
    let mut bd = device(10_000);
    assert_eq!(bd.metadata_slot(Timestamp { nanos: 5 }, 10), Ok(0));
    assert_eq!(bd.save_state(Timestamp { nanos: 5 }, 10), Ok(()));
    assert_eq!(bd.metadata_slot(Timestamp { nanos: 6 }, 10), Ok(1));
    assert_eq!(bd.save_state(Timestamp { nanos: 6 }, 10), Ok(()));
    assert_eq!(bd.metadata_slot(Timestamp { nanos: 7 }, 10), Ok(0));
    assert_eq!(bd.save_state(Timestamp { nanos: 6 }, 10), Err(StratisError::Invalid));
    assert_eq!(
        bd.save_state(Timestamp { nanos: 9 }, usize::MAX),
        Err(StratisError::MetadataTooLarge)
    );
    assert_eq!(bd.last_saved(), Some(Timestamp { nanos: 6 }));
}
