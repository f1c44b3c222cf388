use std::collections::hash_map::DefaultHasher;
use std::hash::Hash;
use std::hash::Hasher;

#[test]
fn it_works() {
    let mut h = DefaultHasher::new();
    [11, 2].hash(&mut h);
    println!("{:?}", h.finish());
    assert_eq!(2 + 2, 4);
}

#[test]
fn key_hash_is_stable_within_a_process() {
    let key = b"some key".to_vec();
    let a = kvlog::util::get_hash(&key);
    let b = kvlog::util::get_hash(&key);
    assert_eq!(a, b);
}

#[test]
fn the_clock_yields_a_timestamp() {
    assert!(kvlog::util::get_timestamp().is_ok());
}
