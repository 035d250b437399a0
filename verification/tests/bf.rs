use std::hash::{Hash, Hasher};

use dsrs::BloomFilter;

#[test]
fn test_bf() {
    let hasher = |v: &str| {
        let mut hasher = std::collections::hash_map::DefaultHasher::new();
        v.hash(&mut hasher);
        hasher.finish()
    };

    let mut bf = BloomFilter::new(100, vec![Box::new(hasher)]);
    bf = bf.insert("hello");
    bf = bf.insert("world");
    println!("{}", bf.contains("hello"));
    println!("{}", bf.contains("world"));
    println!("{}", bf.contains("foo"));
    println!("{}", bf.contains("hell"));
    println!("{}", bf.contains("helloo"));
}

fn by_length(v: &str) -> u64 {
    v.len() as u64
}

fn by_first_byte(v: &str) -> u64 {
    v.bytes().next().map_or(0, u64::from)
}

fn filter(size: usize) -> BloomFilter<&'static str, fn(&str) -> u64> {
    let first: fn(&str) -> u64 = by_length;
    let second: fn(&str) -> u64 = by_first_byte;
    BloomFilter::new(size, vec![Box::new(first), Box::new(second)])
}

#[test]
fn bf_what_was_put_in_is_found() {
    let mut bf = filter(100);
    for w in ["hello", "world", "foo", "a longer phrase"] {
        bf = bf.insert(w);
    }
    for w in ["hello", "world", "foo", "a longer phrase"] {
        assert!(bf.contains(w));
    }
}

#[test]
fn bf_new_filter_holds_nothing() {
    let mut bf = filter(64);
    assert!(!bf.contains("hello"));
    assert!(!bf.contains(""));
    for h in 0..200u64 {
        assert!(!bf.contains_hash(h));
    }
}

#[test]
fn bf_contains_needs_every_bit() {
    // "hello": length 5, first byte 104 -> bits 5 and 4 of 100.
    let mut bf = filter(100).insert("hello");
    assert!(bf.contains("hello"));
    // "hallo" has the same length and the same first byte.
    assert!(bf.contains("hallo"));
    // "help": length 4 hits bit 4, which is set, first byte 104 -> bit 4.
    assert!(bf.contains("help"));
    // "hi": length 2 -> bit 2 is not set.
    assert!(!bf.contains("hi"));
    // "jello": bit 5 is set, first byte 106 -> bit 6 is not.
    assert!(!bf.contains("jello"));
}

#[test]
fn bf_insert_hash_sets_one_bit() {
    let bf = filter(20).insert_hash(7);
    for h in 0..20u64 {
        assert_eq!(bf.contains_hash(h), h == 7);
    }
    // Hash values are taken by their remainder.
    assert!(bf.contains_hash(27));
    assert!(bf.contains_hash(20 * 1000 + 7));
    assert!(!bf.contains_hash(28));
    let bf = bf.insert_hash(39);
    for h in 0..20u64 {
        assert_eq!(bf.contains_hash(h), h == 7 || h == 19);
    }
}

#[test]
fn bf_every_position_can_be_set() {
    for size in [1usize, 7, 8, 9, 16, 17] {
        let mut bf = filter(size);
        for h in 0..size as u64 {
            assert!(!bf.contains_hash(h));
            bf = bf.insert_hash(h);
            for g in 0..size as u64 {
                assert_eq!(bf.contains_hash(g), g <= h);
            }
        }
    }
}

#[test]
fn bf_without_hashers_everything_is_in() {
    let mut bf: BloomFilter<&str, fn(&str) -> u64> = BloomFilter::new(10, vec![]);
    assert!(bf.contains("anything"));
    bf = bf.insert("x");
    assert!(!bf.contains_hash(0));
}

#[test]
fn bf_of_no_bits_without_hashers() {
    let mut bf: BloomFilter<&str, fn(&str) -> u64> = BloomFilter::new(0, vec![]);
    bf = bf.insert("x");
    assert!(bf.contains("x"));
    assert!(bf.contains("y"));
}
