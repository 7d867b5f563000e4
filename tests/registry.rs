use chainshot::registry::{
    Chain, ChainLifetime, ChainState, Layer, RegistryError, SpawnMode, DEFAULT_LIFETIME_MICROS,
};

fn chain(first: u64, links: u64, lifetime: Option<u64>) -> Chain {
    let link_handles: Vec<u64> = (0..links).map(|i| first + i).collect();
    let joint_handles: Vec<u64> = (1..links).map(|i| 1000 + first + i).collect();
    Chain { links: link_handles, joints: joint_handles, lifetime: lifetime.map(ChainLifetime::new) }
}

#[test]
fn oldest_chain_is_evicted_first() {
    let mut s = ChainState::new(SpawnMode::Append);
    s.add_chain(chain(10, 3, None)).unwrap();
    s.add_chain(chain(20, 2, None)).unwrap();
    s.add_chain(chain(30, 1, None)).unwrap();
    assert_eq!(s.len(), 3);
    assert_eq!(s.remove_oldest().unwrap().links, vec![10, 11, 12]);
    assert_eq!(s.remove_oldest().unwrap().links, vec![20, 21]);
    assert_eq!(s.remove_oldest().unwrap().links, vec![30]);
    assert_eq!(s.len(), 0);
    assert!(s.remove_oldest().is_none());
    assert_eq!(s.len(), 0);
}

#[test]
fn removing_twice_is_a_no_op() {
    let mut s = ChainState::default();
    s.add_chain(chain(10, 3, None)).unwrap();
    s.add_chain(chain(20, 2, None)).unwrap();
    let removed = s.remove_by_root(10).unwrap();
    assert_eq!(removed.links, vec![10, 11, 12]);
    assert_eq!(removed.joints, vec![1011, 1012]);
    assert!(!s.contains_root(10));
    assert!(s.remove_by_root(10).is_none());
    assert_eq!(s.len(), 1);
    assert_eq!(s.chains()[0].links, vec![20, 21]);
    // a link that is not a root does not name a chain
    assert!(s.remove_by_root(21).is_none());
    assert_eq!(s.len(), 1);
}

#[test]
fn chain_expires_on_the_tick_that_reaches_its_lifetime() {
    let mut s = ChainState::new(SpawnMode::Append);
    s.add_chain(chain(10, 2, Some(5_000_000))).unwrap();
    for _ in 0..4 {
        assert!(s.tick(1_000_000).is_empty());
        assert!(s.contains_root(10));
    }
    let gone = s.tick(1_000_000);
    assert_eq!(gone.len(), 1);
    assert_eq!(gone[0].links, vec![10, 11]);
    assert_eq!(s.len(), 0);
    // removing it again afterwards finds nothing
    assert!(s.remove_by_root(10).is_none());
}

#[test]
fn chain_short_of_its_lifetime_stays() {
    let mut s = ChainState::new(SpawnMode::Append);
    s.add_chain(chain(10, 2, Some(5_000_000))).unwrap();
    assert!(s.tick(2_500_000).is_empty());
    assert!(s.tick(2_490_000).is_empty());
    assert_eq!(s.len(), 1);
    assert_eq!(s.chains()[0].lifetime, Some(ChainLifetime { remaining: 10_000 }));
    let gone = s.tick(20_000);
    assert_eq!(gone.len(), 1);
    assert_eq!(s.len(), 0);
}

#[test]
fn tick_removes_only_expired_chains_and_keeps_order() {
    let mut s = ChainState::new(SpawnMode::Append);
    s.add_chain(chain(10, 1, Some(100))).unwrap();
    s.add_chain(chain(20, 1, None)).unwrap();
    s.add_chain(chain(30, 1, Some(50))).unwrap();
    s.add_chain(chain(40, 1, Some(500))).unwrap();
    let gone = s.tick(100);
    let gone_roots: Vec<u64> = gone.iter().map(|c| c.links[0]).collect();
    assert_eq!(gone_roots, vec![10, 30]);
    let left: Vec<u64> = s.chains().iter().map(|c| c.links[0]).collect();
    assert_eq!(left, vec![20, 40]);
    assert_eq!(s.chains()[1].lifetime, Some(ChainLifetime { remaining: 400 }));
    assert_eq!(s.chains()[0].lifetime, None);
}

#[test]
fn malformed_and_duplicate_chains_are_refused() {
    let mut s = ChainState::new(SpawnMode::Append);
    let empty = Chain { links: vec![], joints: vec![], lifetime: None };
    assert_eq!(s.add_chain(empty), Err(RegistryError::Malformed));
    let short = Chain { links: vec![1, 2, 3], joints: vec![7], lifetime: None };
    assert_eq!(s.add_chain(short), Err(RegistryError::Malformed));
    s.add_chain(chain(10, 2, None)).unwrap();
    assert_eq!(s.add_chain(chain(10, 4, None)), Err(RegistryError::SharedHandle));
    assert_eq!(s.len(), 1);
    assert!(s.contains_root(10));
    assert!(!s.contains_root(11));
}

#[test]
fn replace_mode_clears_before_spawning() {
    let mut s = ChainState::new(SpawnMode::Replace);
    assert_eq!(s.mode(), SpawnMode::Replace);
    s.add_chain(chain(10, 2, None)).unwrap();
    s.add_chain(chain(20, 2, None)).unwrap();
    let old = s.begin_spawn();
    assert_eq!(old.len(), 2);
    assert_eq!(s.len(), 0);

    let mut a = ChainState::default();
    assert_eq!(a.mode(), SpawnMode::Append);
    a.add_chain(chain(10, 2, None)).unwrap();
    assert!(a.begin_spawn().is_empty());
    assert_eq!(a.len(), 1);
    let all = a.clear();
    assert_eq!(all.len(), 1);
    assert_eq!(a.len(), 0);
}

#[test]
fn lifetime_counts_down_to_zero() {
    let mut l = ChainLifetime::default();
    assert_eq!(l.remaining, DEFAULT_LIFETIME_MICROS);
    assert_eq!(l.remaining, 5_000_000);
    l.tick(4_000_000);
    assert_eq!(l.remaining, 1_000_000);
    assert!(!l.finished());
    l.tick(3_000_000);
    assert_eq!(l.remaining, 0);
    assert!(l.finished());
}

#[test]
fn collision_layers() {
    assert_eq!(Layer::default(), Layer::ChainLink);
    assert_eq!(Layer::ChainLink.filters(), vec![Layer::ChainLink, Layer::StaticObstacle]);
    assert_eq!(Layer::StaticObstacle.filters(), vec![Layer::ChainLink]);
}

#[test]
fn chains_may_not_share_any_handle() {
    let mut s = ChainState::new(SpawnMode::Append);
    s.add_chain(chain(10, 3, None)).unwrap();
    // a link of the live chain
    let c = Chain { links: vec![50, 11], joints: vec![60], lifetime: None };
    assert!(s.shares_with(&c));
    assert_eq!(s.add_chain(c), Err(RegistryError::SharedHandle));
    // a joint of the live chain
    let c = Chain { links: vec![50, 51], joints: vec![1011], lifetime: None };
    assert_eq!(s.add_chain(c), Err(RegistryError::SharedHandle));
    // nothing in common
    let c = Chain { links: vec![50, 51], joints: vec![60], lifetime: None };
    assert!(!s.shares_with(&c));
    assert_eq!(s.add_chain(c), Ok(()));
    assert_eq!(s.len(), 2);
}

#[test]
fn chain_handles_and_overlap() {
    let a = chain(10, 3, None);
    assert!(a.holds(10) && a.holds(12) && a.holds(1011) && a.holds(1012));
    assert!(!a.holds(13) && !a.holds(1010));
    assert!(a.is_whole());
    let b = Chain { links: vec![1, 2], joints: vec![1012], lifetime: None };
    assert!(a.overlaps(&b));
    assert!(b.overlaps(&a));
    let d = Chain { links: vec![1, 2], joints: vec![3], lifetime: None };
    assert!(!a.overlaps(&d));
}
