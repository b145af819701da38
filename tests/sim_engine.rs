use stratisd::sim_engine::{SimEngine, SimPool};

#[test]
fn sim_engine_operations_succeed() {
    let engine = SimEngine::new();
    let mut pool = engine.create_pool("p", &["/dev/a"], 0).unwrap();
    assert!(pool.add_blockdev("/dev/b").is_ok());
    assert!(pool.add_cachedev("/dev/c").is_ok());
    assert!(pool.destroy().is_ok());
    assert!(engine.destroy_pool("p").is_ok());
    assert!(engine.list_pools().is_ok());
    let _ = SimPool::new();
}
