use affinity_clustering::leap_year::is_leap;
use affinity_clustering::my_vec::MyVec;
use affinity_clustering::ring_buffer::SyncRingBuf;

#[test]
fn lib_it_works() {
    assert_eq!(2 + 2, 4);
}

#[test]
fn it_works() {
    assert_eq!(2 + 2, 4);
}

#[test]
fn capacity() {
    let b = SyncRingBuf::<i32>::with_capacity_at_least(2);
    assert_eq!(b.capacity(), 3);

    let b = SyncRingBuf::<i32>::with_capacity_at_least(512);
    assert_eq!(b.capacity(), 1023);
}

#[test]
fn ring_buffer_refuses_when_full() {
    let mut b = SyncRingBuf::<i32>::with_capacity_at_least(3);
    assert_eq!(b.capacity(), 3);
    assert_eq!(b.try_send(1), None);
    assert_eq!(b.try_send(2), None);
    assert_eq!(b.remaining_at_least(), 1);
    assert_eq!(b.try_send(3), None);
    assert_eq!(b.try_send(4), Some(4));
    assert_eq!(b.len_at_least(), 3);
    assert_eq!(b.try_recv(), Some(1));
    assert_eq!(b.try_recv(), Some(2));
    assert_eq!(b.try_recv(), Some(3));
    assert_eq!(b.try_recv(), None);
}

#[test]
fn leap_years() {
    assert!(is_leap(2000));
    assert!(!is_leap(1900));
    assert!(is_leap(2024));
    assert!(!is_leap(2023));
    assert!(is_leap(-4));
}

#[test]
fn my_vec_push_remove_drain() {
    let mut v = MyVec::new();
    v.push(1);
    v.push(2);
    v.push(3);
    v.remove(1);
    assert_eq!(v.len(), 2);
    v.insert(0, 7);
    v.insert(9, 8);
    let mut d = v.drain();
    assert_eq!(v.len(), 0);
    assert_eq!(d.next(), Some(7));
    assert_eq!(d.next(), Some(1));
    assert_eq!(d.next(), Some(3));
    assert_eq!(d.next(), None);
    assert_eq!(v.pop(), None);
}
