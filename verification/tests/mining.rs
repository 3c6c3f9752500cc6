//! Tests of the miner roster and the round-robin pointer.

use jab::mining::{Miner, MiningDatabase};

#[test]
fn should_create_miner() {
    let miner = Miner::new("foo");
    assert_eq!(miner.id(), "foo");
}

#[test]
fn should_create_miner_database() {
    let database = MiningDatabase::new(Miner::new("host"));
    assert!(database.last_block_mined_by().is_none());
    assert_eq!(database.miners().len(), 1);
    assert_eq!(database.miners().get(0).unwrap().id(), "host");
}

#[test]
fn should_get_index_of_miner() {
    let mut database = MiningDatabase::new(Miner::new("host"));
    database.register_miner(Miner::new("omar"));
    assert_eq!(database.index_of("omar").unwrap(), 1);
    assert!(database.index_of("foooooo").is_none());
}

#[test]
fn should_register_miner() {
    let mut database = MiningDatabase::new(Miner::new("host"));
    database.register_miner(Miner::new("omar"));
    assert_eq!(database.miners().len(), 2);
    assert_eq!(database.miners().get(1).unwrap().id(), "omar");
}

#[test]
fn should_unregister_miner() {
    let mut database = MiningDatabase::new(Miner::new("host"));
    database.register_miner(Miner::new("omar"));
    assert_eq!(database.miners().len(), 2);
    database.unregister_miner("omar");
    assert_eq!(database.miners().len(), 1);
    assert_eq!(database.miners().get(0).unwrap().id(), "host");
}

#[test]
fn should_not_register_duped_miner() {
    let mut database = MiningDatabase::new(Miner::new("host"));
    database.register_miner(Miner::new("omar"));
    database.register_miner(Miner::new("omar"));
    assert_eq!(database.miners().len(), 2);
}

#[test]
fn should_not_unregister_unexisting_miner() {
    let mut database = MiningDatabase::new(Miner::new("host"));
    database.register_miner(Miner::new("omar"));
    assert_eq!(database.miners().len(), 2);
    database.unregister_miner("omar");
    assert_eq!(database.miners().len(), 1);
    database.unregister_miner("omar");
    assert_eq!(database.miners().len(), 1);
}

#[test]
fn should_set_last_block_mined_by() {
    let mut database = MiningDatabase::new(Miner::new("host"));
    database.set_last_block_miner();
    assert_eq!(database.last_block_mined_by.as_deref().unwrap(), "host");
}

#[test]
fn should_get_last_block_mined_by() {
    let mut database = MiningDatabase::new(Miner::new("host"));
    database.set_last_block_miner();
    assert_eq!(
        database.last_block_mined_by().unwrap(),
        database.miners().get(0).unwrap(),
    );
}

#[test]
fn round_robin_cycles_through_the_roster() {
    let mut database = MiningDatabase::new(Miner::new("host"));
    database.set_last_block_miner();
    assert_eq!(database.last_block_mined_by().unwrap().id(), "host");
    database.register_miner(Miner::new("m1"));
    database.register_miner(Miner::new("m2"));
    database.set_last_block_miner();
    assert_eq!(database.last_block_mined_by().unwrap().id(), "m1");
    database.set_last_block_miner();
    assert_eq!(database.last_block_mined_by().unwrap().id(), "m2");
    database.set_last_block_miner();
    assert_eq!(database.last_block_mined_by().unwrap().id(), "host");
}

#[test]
fn the_host_mines_when_the_rotation_rests_on_it() {
    let mut database = MiningDatabase::new(Miner::new("host"));
    assert!(!database.should_mine_new_block());
    database.register_miner(Miner::new("m1"));
    database.set_last_block_miner();
    assert!(database.should_mine_new_block());
    database.set_last_block_miner();
    assert!(!database.should_mine_new_block());
}
