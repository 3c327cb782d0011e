use dorfromantik_calculator::utils::unity_random::UnityRandom;

#[test]
fn xorshift_sequence_for_known_seed() {
    let mut r = UnityRandom::new(12345);
    assert_eq!(r.next_u32(), 692788716);
    assert_eq!(r.next_u32(), 3673367756);
    assert_eq!(r.next_u32(), 558115199);
}

#[test]
fn negative_seed_uses_its_bits() {
    let mut r = UnityRandom::new(-1);
    assert_eq!(r.next_u32(), 110471304);
}

#[test]
fn zero_seed_behaves_as_seed_one() {
    let mut a = UnityRandom::new(0);
    let mut b = UnityRandom::new(1);
    for _ in 0..10 {
        assert_eq!(a.next_u32(), b.next_u32());
    }
}

#[test]
fn init_state_restarts_the_sequence() {
    let mut a = UnityRandom::new(99);
    let first = a.next_u32();
    a.next_u32();
    a.init_state(99);
    assert_eq!(a.next_u32(), first);
}

#[test]
fn range_int_examples() {
    let mut r = UnityRandom::new(42);
    let got: Vec<i32> = (0..5).map(|_| r.range_int(0, 6)).collect();
    assert_eq!(got, vec![1, 0, 5, 1, 2]);
}

#[test]
fn range_int_stays_in_range() {
    let mut r = UnityRandom::new(-77);
    for _ in 0..200 {
        let v = r.range_int(-3, 4);
        assert!(v >= -3 && v < 4);
    }
}

#[test]
fn empty_range_gives_min_without_drawing() {
    let mut a = UnityRandom::new(5);
    let mut b = UnityRandom::new(5);
    assert_eq!(a.range_int(7, 7), 7);
    assert_eq!(a.range_int(9, 2), 9);
    assert_eq!(a.next_u32(), b.next_u32());
}

#[test]
fn value_bits_takes_low_23_bits() {
    let mut r = UnityRandom::new(42);
    assert_eq!(r.value_bits(), 7195);
}

#[test]
fn shuffle_example() {
    let mut r = UnityRandom::new(7);
    let mut v = [0, 1, 2, 3, 4, 5];
    r.shuffle(&mut v);
    assert_eq!(v, [2, 1, 3, 4, 0, 5]);
}

#[test]
fn shuffle_is_a_permutation() {
    let mut r = UnityRandom::new(2024);
    let mut v: Vec<u32> = (0..50).collect();
    r.shuffle(&mut v);
    let mut sorted = v.clone();
    sorted.sort();
    assert_eq!(sorted, (0..50).collect::<Vec<u32>>());
}
