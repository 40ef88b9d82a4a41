use water_jugs::{Bucket, BucketError};

#[test]
fn empty_buckets_can_be_created() {
    let desired_capacity: u8 = 56;
    let bucket = Bucket::as_empty(12, 56).unwrap();
    assert_eq!(bucket.is_empty(), true);
    assert_eq!(bucket.remaining_capacity(), desired_capacity);
    assert_eq!(bucket.is_full(), false);
}

#[test]
fn empty_buckets_can_not_have_a_zero_capacity() {
    let bucket = Bucket::as_empty(87, 0);
    assert!(bucket.is_err());
}

#[test]
fn full_buckets_can_be_created() {
    let bucket = Bucket::as_full(9, 56).unwrap();
    assert_eq!(bucket.is_empty(), false);
    assert_eq!(bucket.remaining_capacity(), 0);
    assert_eq!(bucket.is_full(), true);
}

#[test]
fn full_buckets_can_not_have_a_zero_capacity() {
    let bucket = Bucket::as_full(6, 0);
    assert!(bucket.is_err());
}

#[test]
fn partially_full_buckets_can_be_created() {
    let bucket = Bucket::new(12, 56, 38).unwrap();
    assert_eq!(bucket.is_empty(), false);
    assert_eq!(bucket.remaining_capacity(), 18);
    assert_eq!(bucket.is_full(), false);
}

#[test]
fn partially_buckets_can_not_have_a_zero_capacity() {
    let bucket = Bucket::new(76, 0, 0);
    assert!(bucket.is_err());
}

#[test]
fn buckets_can_not_be_overfilled() {
    let bucket = Bucket::new(87, 56, 57);
    assert!(bucket.is_err());
}

#[test]
fn zero_capacity_is_reported_as_invalid_capacity() {
    assert_eq!(Bucket::new(1, 0, 0).err(), Some(BucketError::InvalidCapacity));
    assert_eq!(Bucket::new(1, 0, 7).err(), Some(BucketError::InvalidCapacity));
    assert_eq!(Bucket::as_full(1, 0).err(), Some(BucketError::InvalidCapacity));
}

#[test]
fn overfilling_is_reported_as_over_capacity() {
    assert_eq!(Bucket::new(1, 5, 6).err(), Some(BucketError::OverCapacity));
    assert_eq!(Bucket::new(1, 1, 255).err(), Some(BucketError::OverCapacity));
}

#[test]
fn every_level_up_to_capacity_is_accepted() {
    for c in 1..=12u8 {
        for f in 0..=c {
            let b = Bucket::new(3, c, f).unwrap();
            assert_eq!(b.remaining_capacity(), c - f);
            assert_eq!(b.is_full(), f == c);
            assert_eq!(b.is_empty(), f == 0);
            assert_eq!(b.used_capacity(), f);
            assert_eq!(b.capacity(), c);
            assert_eq!(b.id(), 3);
        }
    }
}

#[test]
fn largest_capacity_bucket() {
    let b = Bucket::as_full(0, 255).unwrap();
    assert!(b.is_full());
    assert_eq!(b.remaining_capacity(), 0);
    assert_eq!(b.pour_into(1).err(), Some(BucketError::OverCapacity));
    assert_eq!(b.pour_from(255).unwrap().used_capacity(), 0);
}

#[test]
fn fill_and_empty_keep_identity_and_capacity() {
    let b = Bucket::new(4, 9, 5).unwrap();
    let full = b.fill();
    assert!(full.is_full());
    assert_eq!(full.used_capacity(), 9);
    assert_eq!(full.id(), 4);
    assert_eq!(full.capacity(), 9);
    let empty = b.empty();
    assert!(empty.is_empty());
    assert_eq!(empty.used_capacity(), 0);
    assert_eq!(empty.id(), 4);
    assert_eq!(empty.capacity(), 9);
    assert_eq!(b.used_capacity(), 5);
}

#[test]
fn pouring_out_and_in_moves_the_level() {
    let b = Bucket::new(2, 10, 6).unwrap();
    assert_eq!(b.pour_from(4).unwrap().used_capacity(), 2);
    assert_eq!(b.pour_from(6).unwrap().used_capacity(), 0);
    assert_eq!(b.pour_from(7).err(), Some(BucketError::OverCapacity));
    assert_eq!(b.pour_into(3).unwrap().used_capacity(), 9);
    assert_eq!(b.pour_into(4).unwrap().used_capacity(), 10);
    assert_eq!(b.pour_into(5).err(), Some(BucketError::OverCapacity));
    assert_eq!(b.pour_into(250).err(), Some(BucketError::OverCapacity));
}

#[test]
fn buckets_are_equal_by_identity() {
    let a = Bucket::new(1, 5, 2).unwrap();
    let b = Bucket::new(1, 7, 7).unwrap();
    let c = Bucket::new(2, 5, 2).unwrap();
    assert!(a == b);
    assert!(a != c);
}
