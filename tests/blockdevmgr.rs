use devicemapper::{Device, Sectors};

use stratisd::blockdevmgr::{BlockDevMgr, SavePlan, MAX_NUM_TO_WRITE};
use stratisd::devices::{DevOwnership, DeviceInfo, MIN_DEV_SIZE};
use stratisd::types::{ClevisInfo, DevUuid, MDADataSize, PoolUuid, StratisError, Timestamp};

fn unowned(minor: u32, size: u64) -> DeviceInfo {
    DeviceInfo {
        devnode: format!("/dev/loop{}", minor),
        device: Device { major: 7, minor },
        size: Sectors(size),
        ownership: DevOwnership::Unowned,
    }
}

fn paths(n: u32) -> Vec<DeviceInfo> {
    (0..n).map(|i| unowned(i, MIN_DEV_SIZE + 1000 * i as u64)).collect()
}

/// The candidates of a manager's members as a fresh probe shows them.
fn reprobe(mgr: &BlockDevMgr, pool: PoolUuid) -> Vec<DeviceInfo> {
    mgr.blockdevs()
        .iter()
        .map(|bd| DeviceInfo {
            devnode: bd.physical_path().clone(),
            device: *bd.device(),
            size: bd.total_size(),
            ownership: DevOwnership::Ours(pool, bd.uuid()),
        })
        .collect()
}

/// Initially size() - metadata_size() = avail_space(); after 2 sectors are
/// allocated, that amount is also in the balance.
fn test_blockdevmgr_used(paths: &[DeviceInfo]) {
    let mut mgr =
        BlockDevMgr::initialize(PoolUuid(1), paths, MDADataSize::default(), None).unwrap();
    assert_eq!(mgr.avail_space().0 + mgr.metadata_size().0, mgr.size().0);

    let allocated = Sectors(2);
    mgr.alloc_space(&[allocated]).unwrap();
    assert_eq!(
        mgr.avail_space().0 + allocated.0 + mgr.metadata_size().0,
        mgr.size().0
    );
}

#[test]
fn loop_test_blockdevmgr_used() {
    for n in 1..4 {
        test_blockdevmgr_used(&paths(n));
    }
}

#[test]
fn real_test_blockdevmgr_used() {
    test_blockdevmgr_used(&paths(1));
}

#[test]
fn travis_test_blockdevmgr_used() {
    for n in 1..4 {
        test_blockdevmgr_used(&paths(n));
    }
}

/// Adding a device succeeds when the key of an encrypted pool unlocks it.
fn test_blockdevmgr_same_key(paths: &[DeviceInfo]) {
    let pool_uuid = PoolUuid(7);
    let mut bdm = BlockDevMgr::initialize(
        pool_uuid,
        &paths[..2],
        MDADataSize::default(),
        Some("stratis-test-key".to_string()),
    )
    .unwrap();
    assert!(bdm.add(pool_uuid, &paths[2..3], true).is_ok());
    assert_eq!(bdm.blockdevs().len(), 3);
    assert!(bdm.is_encrypted());
    for bd in bdm.blockdevs() {
        let info = bd.encryption_info().as_ref().unwrap();
        assert_eq!(info.key_description, "stratis-test-key");
        assert!(info.clevis_info.is_none());
    }
}

#[test]
fn loop_test_blockdevmgr_same_key() {
    test_blockdevmgr_same_key(&paths(3));
}

#[test]
fn real_test_blockdevmgr_same_key() {
    test_blockdevmgr_same_key(&paths(3));
}

#[test]
fn travis_test_blockdevmgr_same_key() {
    test_blockdevmgr_same_key(&paths(3));
}

/// Adding a device fails when the key in the keyring no longer unlocks the
/// encrypted pool.
fn test_blockdevmgr_changed_key(paths: &[DeviceInfo]) {
    let pool_uuid = PoolUuid(8);
    let mut bdm = BlockDevMgr::initialize(
        pool_uuid,
        &paths[..2],
        MDADataSize::default(),
        Some("stratis-test-key".to_string()),
    )
    .unwrap();
    assert_eq!(bdm.add(pool_uuid, &paths[2..3], false), Err(StratisError::Invalid));
    assert_eq!(bdm.blockdevs().len(), 2);
}

#[test]
fn loop_test_blockdevmgr_changed_key() {
    test_blockdevmgr_changed_key(&paths(3));
}

#[test]
fn real_test_blockdevmgr_changed_key() {
    test_blockdevmgr_changed_key(&paths(3));
}

#[test]
fn travis_test_blockdevmgr_changed_key() {
    test_blockdevmgr_changed_key(&paths(3));
}

/// Devices of one pool cannot be taken by another.
fn test_initialization_add_stratis(paths: &[DeviceInfo]) {
    assert!(paths.len() > 1);
    let (paths1, paths2) = paths.split_at(paths.len() / 2);

    let uuid = PoolUuid(100);
    let uuid2 = PoolUuid(200);

    let mut bd_mgr =
        BlockDevMgr::initialize(uuid, paths1, MDADataSize::default(), None).unwrap();
    let probed1 = reprobe(&bd_mgr, uuid);

    assert!(matches!(
        BlockDevMgr::initialize(uuid2, &probed1, MDADataSize::default(), None),
        Err(_)
    ));

    let original_length = bd_mgr.blockdevs().len();
    assert!(matches!(bd_mgr.add(uuid2, &probed1, false), Err(_)));
    assert!(matches!(bd_mgr.add(uuid, &probed1, false), Ok(_)));
    assert_eq!(bd_mgr.blockdevs().len(), original_length);

    let other = BlockDevMgr::initialize(uuid, paths2, MDADataSize::default(), None).unwrap();
    let probed2 = reprobe(&other, uuid);

    assert!(matches!(bd_mgr.add(uuid, &probed2, false), Err(_)));

    let pools: Vec<PoolUuid> = bd_mgr.blockdevs().iter().map(|bd| bd.pool_uuid()).collect();
    assert!(pools.iter().all(|p| *p == uuid));
    assert!(bd_mgr.encryption_info().is_none());
}

#[test]
fn loop_test_initialization_stratis() {
    for n in 2..4 {
        test_initialization_add_stratis(&paths(n));
    }
}

#[test]
fn real_test_initialization_stratis() {
    test_initialization_add_stratis(&paths(2));
}

#[test]
fn travis_test_initialization_stratis() {
    for n in 2..4 {
        test_initialization_add_stratis(&paths(n));
    }
}

#[test]
fn alloc_space_insufficient_changes_nothing() {
    let mut mgr =
        BlockDevMgr::initialize(PoolUuid(1), &paths(2), MDADataSize::default(), None).unwrap();
    let avail = mgr.avail_space();
    assert!(mgr.alloc_space(&[Sectors(avail.0), Sectors(1)]).is_none());
    assert_eq!(mgr.avail_space(), avail);
    let lists = mgr.alloc_space(&[Sectors(avail.0)]).unwrap();
    assert_eq!(lists.len(), 1);
    assert_eq!(mgr.avail_space(), Sectors(0));
}

#[test]
fn alloc_space_spans_members_in_order() {
    let mut mgr =
        BlockDevMgr::initialize(PoolUuid(1), &paths(2), MDADataSize::default(), None).unwrap();
    let first_avail = mgr.blockdevs()[0].available().0;
    let first_uuid = mgr.blockdevs()[0].uuid();
    let second_uuid = mgr.blockdevs()[1].uuid();
    let start = mgr.blockdevs()[0].metadata_size();
    let lists = mgr.alloc_space(&[Sectors(10), Sectors(first_avail)]).unwrap();
    assert_eq!(lists.len(), 2);
    assert_eq!(lists[0].len(), 1);
    assert_eq!(lists[0][0].uuid, first_uuid);
    assert_eq!(lists[0][0].segment.start, start);
    assert_eq!(lists[0][0].segment.length, Sectors(10));
    let total: u64 = lists[1].iter().map(|s| s.segment.length.0).sum();
    assert_eq!(total, first_avail);
    assert_eq!(lists[1][0].uuid, first_uuid);
    assert_eq!(lists[1][0].segment.start, Sectors(start.0 + 10));
    assert_eq!(lists[1][1].uuid, second_uuid);
    assert_eq!(lists[1][1].segment.length, Sectors(10));
}

#[test]
fn allocations_on_a_device_are_disjoint() {
    let mut mgr =
        BlockDevMgr::initialize(PoolUuid(1), &paths(1), MDADataSize::default(), None).unwrap();
    let a = mgr.alloc_space(&[Sectors(5), Sectors(7)]).unwrap();
    let b = mgr.alloc_space(&[Sectors(3)]).unwrap();
    let mut ranges: Vec<(u64, u64)> = a
        .iter()
        .chain(b.iter())
        .flatten()
        .map(|s| (s.segment.start.0, s.segment.start.0 + s.segment.length.0))
        .collect();
    ranges.sort();
    for w in ranges.windows(2) {
        assert!(w[0].1 <= w[1].0);
    }
}

#[test]
fn initialize_rejects_small_and_foreign_devices() {
    let small = vec![unowned(1, MIN_DEV_SIZE - 1)];
    assert_eq!(
        BlockDevMgr::initialize(PoolUuid(1), &small, MDADataSize::default(), None).err(),
        Some(StratisError::Invalid)
    );
    let mut foreign = paths(1);
    foreign[0].ownership = DevOwnership::Theirs;
    assert_eq!(
        BlockDevMgr::initialize(PoolUuid(1), &foreign, MDADataSize::default(), None).err(),
        Some(StratisError::Invalid)
    );
}

#[test]
fn initialize_skips_repeated_devices() {
    let mut ds = paths(2);
    ds.push(unowned(0, MIN_DEV_SIZE));
    let mgr = BlockDevMgr::initialize(PoolUuid(1), &ds, MDADataSize::default(), None).unwrap();
    assert_eq!(mgr.blockdevs().len(), 2);
    let uuids = mgr.current_uuids();
    assert_ne!(uuids[0], uuids[1]);
}

#[test]
fn remove_blockdevs_is_all_or_nothing() {
    let mut mgr =
        BlockDevMgr::initialize(PoolUuid(1), &paths(3), MDADataSize::default(), None).unwrap();
    let uuids = mgr.current_uuids();
    assert_eq!(
        mgr.remove_blockdevs(&[uuids[2], DevUuid(0)]).err(),
        Some(StratisError::NotFound)
    );
    assert_eq!(mgr.blockdevs().len(), 3);
    let removed = mgr.remove_blockdevs(&[uuids[1]]).unwrap();
    assert_eq!(removed.len(), 1);
    assert_eq!(removed[0].uuid(), uuids[1]);
    assert_eq!(mgr.current_uuids(), vec![uuids[0], uuids[2]]);
}

#[test]
fn save_state_fans_out_to_at_most_ten() {
    let mut mgr =
        BlockDevMgr::initialize(PoolUuid(1), &paths(15), MDADataSize::default(), None).unwrap();
    let plan = mgr.save_state_plan(100);
    assert_eq!(plan.targets.len(), MAX_NUM_TO_WRITE);
    let mut sorted = plan.targets.clone();
    sorted.sort();
    sorted.dedup();
    assert_eq!(sorted.len(), MAX_NUM_TO_WRITE);
    let written = vec![true; plan.targets.len()];
    assert_eq!(mgr.save_state(&plan, 100, &written), Ok(()));
    let holders = mgr
        .blockdevs()
        .iter()
        .filter(|bd| bd.last_saved() == Some(plan.stamp))
        .count();
    assert_eq!(holders, MAX_NUM_TO_WRITE);
}

#[test]
fn save_state_with_no_write_fails() {
    let mut mgr =
        BlockDevMgr::initialize(PoolUuid(1), &paths(3), MDADataSize::default(), None).unwrap();
    let plan = mgr.save_state_plan(100);
    assert_eq!(plan.targets.len(), 3);
    let written = vec![false; 3];
    assert_eq!(
        mgr.save_state(&plan, 100, &written),
        Err(StratisError::NoMetadataTarget)
    );
    assert!(mgr.blockdevs().iter().all(|bd| bd.last_saved().is_none()));
}

#[test]
fn save_state_stamps_strictly_increase() {
    let mut mgr =
        BlockDevMgr::initialize(PoolUuid(1), &paths(2), MDADataSize::default(), None).unwrap();
    let fixed = SavePlan { stamp: Timestamp { nanos: 1_000 }, targets: vec![0, 1] };
    assert_eq!(mgr.save_state(&fixed, 10, &[true, true]), Ok(()));
    assert_eq!(mgr.save_state(&fixed, 10, &[true, true]), Err(StratisError::Invalid));
    let next = mgr.save_state_plan(10);
    assert!(next.stamp.nanos > 1_000);
    let n = next.targets.len();
    assert_eq!(mgr.save_state(&next, 10, &vec![true; n]), Ok(()));
}

#[test]
fn save_state_skips_members_too_small() {
    let mgr =
        BlockDevMgr::initialize(PoolUuid(1), &paths(2), MDADataSize::default(), None).unwrap();
    let too_big = MDADataSize::default().bytes() as usize + 1;
    let plan = mgr.save_state_plan(too_big);
    assert!(plan.targets.is_empty());
    assert!(mgr.save_candidates(too_big).is_empty());
    assert_eq!(mgr.save_candidates(10), vec![0, 1]);
}

#[test]
fn bind_is_idempotent_and_refuses_another_config() {
    let mut mgr = BlockDevMgr::initialize(
        PoolUuid(1),
        &paths(2),
        MDADataSize::default(),
        Some("key".to_string()),
    )
    .unwrap();
    let pin = "tang".to_string();
    let cfg = "{\"url\":\"http://tang\"}".to_string();
    let other = "{\"url\":\"http://other\"}".to_string();
    assert_eq!(mgr.bind_clevis_check(&pin, &cfg), Ok(true));
    mgr.set_clevis_info(Some(ClevisInfo { pin: pin.clone(), config: cfg.clone() }));
    assert_eq!(mgr.bind_clevis_check(&pin, &cfg), Ok(false));
    assert_eq!(mgr.bind_clevis_check(&pin, &other), Err(StratisError::BindingConflict));
    assert_eq!(mgr.unbind_clevis_check(), Ok(true));
    mgr.set_clevis_info(None);
    assert_eq!(mgr.unbind_clevis_check(), Ok(false));
}

#[test]
fn bind_on_plain_pool_fails_and_unbind_is_a_no_op() {
    let mgr =
        BlockDevMgr::initialize(PoolUuid(1), &paths(1), MDADataSize::default(), None).unwrap();
    let pin = "tang".to_string();
    assert_eq!(mgr.bind_clevis_check(&pin, &pin), Err(StratisError::NotEncrypted));
    assert_eq!(mgr.unbind_clevis_check(), Ok(false));
}

#[test]
fn new_members_use_the_pool_slot_capacity() {
    let big = MDADataSize::new(1_000_000).unwrap();
    let mut mgr = BlockDevMgr::initialize(PoolUuid(3), &paths(1), big, None).unwrap();
    let added = mgr.add(PoolUuid(3), &[unowned(9, MIN_DEV_SIZE)], false).unwrap();
    assert_eq!(added.len(), 1);
    assert_eq!(mgr.blockdevs()[1].max_metadata_size().0, 1_000_000);
    assert_eq!(mgr.blockdevs()[1].metadata_size(), mgr.blockdevs()[0].metadata_size());
}

#[test]
fn mda_size_bounds() {
    assert_eq!(MDADataSize::new(0).unwrap(), MDADataSize::default());
    assert!(MDADataSize::new(u64::MAX).is_none());
    // 16 header sectors and four regions of 520 sectors.
    assert_eq!(MDADataSize::default().reserved(), 16 + 4 * 520);
}

#[test]
fn lookups_by_uuid() {
    let mgr =
        BlockDevMgr::initialize(PoolUuid(1), &paths(2), MDADataSize::default(), None).unwrap();
    let map = mgr.uuid_to_devno();
    assert_eq!(map.len(), 2);
    assert_eq!(map[1].1, Device { major: 7, minor: 1 });
    let u = map[1].0;
    assert_eq!(mgr.position_of(u), Some(1));
    assert_eq!(mgr.get_blockdev_by_uuid(u).unwrap().device(), &Device { major: 7, minor: 1 });
    assert!(mgr.get_blockdev_by_uuid(DevUuid(0)).is_none() || map.iter().any(|e| e.0 == DevUuid(0)));
}

#[test]
fn initialize_without_candidates_is_empty() {
    let mgr = BlockDevMgr::initialize(PoolUuid(1), &[], MDADataSize::default(), None).unwrap();
    assert_eq!(mgr.blockdevs().len(), 0);
    assert_eq!(mgr.size(), Sectors(0));
}

#[test]
fn add_refuses_a_device_number_already_held() {
    let mut mgr =
        BlockDevMgr::initialize(PoolUuid(1), &paths(1), MDADataSize::default(), None).unwrap();
    // Same device number as the member, but seen without its header.
    let again = vec![unowned(0, MIN_DEV_SIZE)];
    assert_eq!(mgr.add(PoolUuid(1), &again, false), Err(StratisError::Invalid));
    assert_eq!(mgr.current_devices(), vec![Device { major: 7, minor: 0 }]);
}

#[test]
fn add_of_members_only_changes_nothing() {
    let mut mgr =
        BlockDevMgr::initialize(PoolUuid(4), &paths(2), MDADataSize::default(), None).unwrap();
    let before = mgr.current_uuids();
    let probed = reprobe(&mgr, PoolUuid(4));
    assert_eq!(mgr.add(PoolUuid(4), &probed, false), Ok(vec![]));
    assert_eq!(mgr.current_uuids(), before);
}
