use prime_sieve::bit_vec::BitVec;

#[test]
fn new_vector_has_no_flags() {
    let store = BitVec::new();
    assert_eq!(store.get(0), false);
    assert_eq!(store.get(1000), false);
    assert_eq!(store.to_string(), "");
}

#[test]
fn set_allots_the_whole_byte() {
    let mut store = BitVec::new();
    store.set(0);
    assert_eq!(store.get(0), true);
    for i in 1..8 {
        assert_eq!(store.get(i), false);
    }
    assert_eq!(store.get(8), false);
    assert_eq!(store.to_string(), "00000001 ");
}

#[test]
fn set_on_the_first_flag_past_the_end_grows() {
    let mut store = BitVec::new();
    store.set(3);
    store.set(8);
    assert_eq!(store.get(3), true);
    assert_eq!(store.get(8), true);
    assert_eq!(store.get(9), false);
    assert_eq!(store.get(15), false);
    assert_eq!(store.get(16), false);
    assert_eq!(store.to_string(), "00000001 00001000 ");
}

#[test]
fn set_far_past_the_end_fills_with_unset_flags() {
    let mut store = BitVec::new();
    store.set(1);
    store.set(20);
    for i in 0..24 {
        assert_eq!(store.get(i), i == 1 || i == 20);
    }
    assert_eq!(store.get(24), false);
    assert_eq!(store.to_string(), "00010000 00000000 00000010 ");
}

#[test]
fn set_within_the_allotted_flags_keeps_the_length() {
    let mut store = BitVec::new();
    store.set(15);
    store.set(2);
    assert_eq!(store.get(2), true);
    assert_eq!(store.get(15), true);
    assert_eq!(store.get(16), false);
    assert_eq!(store.to_string(), "10000000 00000100 ");
}

#[test]
fn vector_set_twice_is_set_once() {
    let mut store = BitVec::new();
    store.set(10);
    let once = store.to_string();
    store.set(10);
    assert_eq!(store.to_string(), once);
    assert_eq!(store.get(10), true);
}

#[test]
fn text_of_one_byte() {
    let mut store = BitVec::new();
    store.set(0);
    assert_eq!(store.to_string(), "00000001 ");
    store.set(7);
    assert_eq!(store.to_string(), "10000001 ");
}

#[test]
fn text_puts_the_last_byte_first() {
    let mut store = BitVec::new();
    store.set(0);
    store.set(9);
    assert_eq!(store.to_string(), "00000010 00000001 ");
    store.set(22);
    assert_eq!(store.to_string(), "01000000 00000010 00000001 ");
}

#[test]
fn largest_index_has_no_flag() {
    let store = BitVec::new();
    assert_eq!(store.get(usize::MAX), false);
}
