use devicemapper::Device;

use stratisd::identify::{
    decide_ownership, identify_device, pool_map_of, HeaderProbe, PoolMap, UdevEntry,
    UdevOwnership,
};
use stratisd::types::PoolUuid;

fn entry(fs_type: Option<&str>) -> UdevEntry {
    UdevEntry {
        initialized: true,
        devnode: Some("/dev/sdb".to_string()),
        devnum: Some(Device { major: 8, minor: 16 }),
        fs_type: fs_type.map(|s| s.to_string()),
        multipath_member: false,
        other_claim: false,
    }
}

#[test]
fn ownership_table() {
    assert_eq!(decide_ownership(&entry(Some("stratis-pool"))), UdevOwnership::Stratis);
    assert_eq!(decide_ownership(&entry(None)), UdevOwnership::Unowned);
    assert_eq!(decide_ownership(&entry(Some("xfs"))), UdevOwnership::Theirs);
    let mut claimed = entry(None);
    claimed.other_claim = true;
    assert_eq!(decide_ownership(&claimed), UdevOwnership::Theirs);
    let mut mp = entry(Some("stratis-pool"));
    mp.multipath_member = true;
    assert_eq!(decide_ownership(&mp), UdevOwnership::MultipathMember);
}

#[test]
fn identify_skips_untrusted_entries() {
    let pool = HeaderProbe::Pool(PoolUuid(5));
    let e = entry(Some("stratis-pool"));
    assert_eq!(
        identify_device(&e, pool, false),
        Some((PoolUuid(5), Device { major: 8, minor: 16 }, "/dev/sdb".to_string()))
    );
    assert_eq!(identify_device(&e, HeaderProbe::Absent, false), None);
    assert_eq!(identify_device(&e, HeaderProbe::Unreadable, true), None);
    let mut uninit = entry(Some("stratis-pool"));
    uninit.initialized = false;
    assert_eq!(identify_device(&uninit, pool, false), None);
    let mut mp = entry(Some("stratis-pool"));
    mp.multipath_member = true;
    assert_eq!(identify_device(&mp, pool, false), None);
    assert_eq!(identify_device(&mp, pool, true), None);
    assert_eq!(identify_device(&entry(Some("ext4")), pool, true), None);
    assert!(identify_device(&entry(None), pool, true).is_some());
    let mut no_node = entry(None);
    no_node.devnode = None;
    assert_eq!(identify_device(&no_node, pool, true), None);
}

#[test]
fn pool_map_keeps_last_node_per_device() {
    let d1 = Device { major: 8, minor: 1 };
    let d2 = Device { major: 8, minor: 2 };
    let found = vec![
        (PoolUuid(1), d1, "/dev/a".to_string()),
        (PoolUuid(2), d2, "/dev/b".to_string()),
        (PoolUuid(1), d1, "/dev/c".to_string()),
        (PoolUuid(1), d2, "/dev/d".to_string()),
    ];
    let map = pool_map_of(found);
    let mut entries = map.entries().clone();
    entries.sort_by_key(|e| (e.0 .0, e.1.minor));
    assert_eq!(
        entries,
        vec![
            (PoolUuid(1), d1, "/dev/c".to_string()),
            (PoolUuid(1), d2, "/dev/d".to_string()),
            (PoolUuid(2), d2, "/dev/b".to_string()),
        ]
    );
    assert!(PoolMap::new().entries().is_empty());
}
