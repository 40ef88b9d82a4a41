use vstd::prelude::*;

verus! {

/// Why a bucket could not be built.
#[derive(Clone, Copy, Debug, PartialEq, Eq, Structural)]
pub enum BucketError {
    /// A bucket must be able to hold something.
    InvalidCapacity,
    /// The requested fill level lies outside `0..=capacity`.
    OverCapacity,
}

/// One bucket of the puzzle: an identity, a fixed capacity and a fill level.
/// Buckets are values: every move yields new buckets and leaves the old ones as they were.
#[derive(Clone, Copy, Debug)]
pub struct Bucket {
    id: usize,
    capacity: u8,
    fill_level: u8,
}

impl Bucket {
    /// The identity that tells the physical buckets of a puzzle apart.
    pub closed spec fn ident(&self) -> usize {
        self.id
    }

    /// How much the bucket can hold.
    pub closed spec fn cap(&self) -> nat {
        self.capacity as nat
    }

    /// How much the bucket holds.
    pub closed spec fn level(&self) -> nat {
        self.fill_level as nat
    }

    /// Capacity is positive and the fill level never exceeds it.
    pub open spec fn wf(&self) -> bool {
        &&& 0 < self.cap()
        &&& self.level() <= self.cap()
    }

    /// The same bucket holding `v` units.
    pub closed spec fn with_level(&self, v: nat) -> Bucket {
        Bucket { id: self.id, capacity: self.capacity, fill_level: v as u8 }
    }

    pub open spec fn spec_is_empty(&self) -> bool {
        self.level() == 0
    }

    pub open spec fn spec_is_full(&self) -> bool {
        self.level() == self.cap()
    }

    pub open spec fn spec_remaining(&self) -> nat {
        (self.cap() - self.level()) as nat
    }

    /// Setting the level keeps identity and capacity; a level that fits in a `u8` is kept.
    pub proof fn lemma_with_level(&self, v: nat)
        ensures
            self.with_level(v).ident() == self.ident(),
            self.with_level(v).cap() == self.cap(),
            v <= 255 ==> self.with_level(v).level() == v,
    {
    }

    /// Capacity and level are bytes.
    pub proof fn lemma_bounds(&self)
        ensures
            self.cap() <= 255,
            self.level() <= 255,
    {
    }

    /// A bucket of capacity `c > 0` holding `f <= c` units has `c - f` units of room, is full
    /// exactly when `f == c`, and is empty exactly when `f == 0`.
    pub proof fn lemma_levels(&self, c: u8, f: u8)
        requires
            0 < c,
            f <= c,
            self.cap() == c,
            self.level() == f,
        ensures
            self.wf(),
            self.spec_remaining() == c - f,
            self.spec_is_full() <==> f == c,
            self.spec_is_empty() <==> f == 0,
    {
    }

    pub fn new(id: usize, capacity: u8, used_capacity: u8) -> (r: Result<Bucket, BucketError>)
        ensures
            capacity == 0 ==> r == Err::<Bucket, BucketError>(BucketError::InvalidCapacity),
            capacity > 0 && used_capacity > capacity ==> r == Err::<Bucket, BucketError>(
                BucketError::OverCapacity,
            ),
            capacity > 0 && used_capacity <= capacity ==> r is Ok,
            r matches Ok(b) ==> b.wf() && b.ident() == id && b.cap() == capacity
                && b.level() == used_capacity,
    {
        if capacity == 0 {
            return Err(BucketError::InvalidCapacity);
        }
        if used_capacity > capacity {
            return Err(BucketError::OverCapacity);
        }
        Ok(Bucket { id, capacity, fill_level: used_capacity })
    }

    pub fn as_empty(id: usize, capacity: u8) -> (r: Result<Bucket, BucketError>)
        ensures
            capacity == 0 ==> r == Err::<Bucket, BucketError>(BucketError::InvalidCapacity),
            capacity > 0 ==> r is Ok,
            r matches Ok(b) ==> b.wf() && b.ident() == id && b.cap() == capacity && b.level()
                == 0,
    {
        Bucket::new(id, capacity, 0)
    }

    pub fn as_full(id: usize, capacity: u8) -> (r: Result<Bucket, BucketError>)
        ensures
            capacity == 0 ==> r == Err::<Bucket, BucketError>(BucketError::InvalidCapacity),
            capacity > 0 ==> r is Ok,
            r matches Ok(b) ==> b.wf() && b.ident() == id && b.cap() == capacity && b.level()
                == capacity,
    {
        Bucket::new(id, capacity, capacity)
    }

    pub fn id(&self) -> (r: usize)
        ensures
            r == self.ident(),
    {
        self.id
    }

    pub fn capacity(&self) -> (r: u8)
        ensures
            r == self.cap(),
    {
        self.capacity
    }

    pub fn is_empty(&self) -> (r: bool)
        ensures
            r == self.spec_is_empty(),
    {
        self.fill_level == 0
    }

    pub fn used_capacity(&self) -> (r: u8)
        ensures
            r == self.level(),
    {
        self.fill_level
    }

    pub fn remaining_capacity(&self) -> (r: u8)
        requires
            self.wf(),
        ensures
            r == self.spec_remaining(),
    {
        self.capacity - self.fill_level
    }

    pub fn is_full(&self) -> (r: bool)
        requires
            self.wf(),
        ensures
            r == self.spec_is_full(),
    {
        self.remaining_capacity() == 0
    }

    /// The same bucket with nothing in it.
    pub fn empty(&self) -> (r: Bucket)
        requires
            self.wf(),
        ensures
            r == self.with_level(0),
            r.wf(),
            r.ident() == self.ident(),
            r.cap() == self.cap(),
            r.level() == 0,
            r.spec_is_empty(),
    {
        Bucket { id: self.id, capacity: self.capacity, fill_level: 0 }
    }

    /// The same bucket filled to capacity.
    pub fn fill(&self) -> (r: Bucket)
        requires
            self.wf(),
        ensures
            r == self.with_level(self.cap()),
            r.wf(),
            r.ident() == self.ident(),
            r.cap() == self.cap(),
            r.level() == self.cap(),
            r.spec_is_full(),
    {
        Bucket { id: self.id, capacity: self.capacity, fill_level: self.capacity }
    }

    /// The same bucket after `pour_amount` units have left it.
    pub fn pour_from(&self, pour_amount: u8) -> (r: Result<Bucket, BucketError>)
        requires
            self.wf(),
        ensures
            pour_amount > self.level() <==> r == Err::<Bucket, BucketError>(
                BucketError::OverCapacity,
            ),
            pour_amount <= self.level() ==> r == Ok::<Bucket, BucketError>(
                self.with_level((self.level() - pour_amount) as nat),
            ),
            r matches Ok(b) ==> b.wf() && b.ident() == self.ident() && b.cap() == self.cap()
                && b.level() == self.level() - pour_amount,
    {
        if pour_amount > self.fill_level {
            return Err(BucketError::OverCapacity);
        }
        Bucket::new(self.id, self.capacity, self.fill_level - pour_amount)
    }

    /// The same bucket after `pour_amount` more units have come into it.
    pub fn pour_into(&self, pour_amount: u8) -> (r: Result<Bucket, BucketError>)
        requires
            self.wf(),
        ensures
            pour_amount > self.spec_remaining() <==> r == Err::<Bucket, BucketError>(
                BucketError::OverCapacity,
            ),
            pour_amount <= self.spec_remaining() ==> r == Ok::<Bucket, BucketError>(
                self.with_level((self.level() + pour_amount) as nat),
            ),
            r matches Ok(b) ==> b.wf() && b.ident() == self.ident() && b.cap() == self.cap()
                && b.level() == self.level() + pour_amount,
    {
        if pour_amount > self.capacity - self.fill_level {
            return Err(BucketError::OverCapacity);
        }
        Bucket::new(self.id, self.capacity, self.fill_level + pour_amount)
    }
}

/// Buckets are compared by identity alone: the same physical bucket at another level is equal.
impl PartialEq for Bucket {
    fn eq(&self, other: &Bucket) -> (r: bool) {
        self.id == other.id
    }
}

impl vstd::std_specs::cmp::PartialEqSpecImpl for Bucket {
    open spec fn obeys_eq_spec() -> bool {
        true
    }

    open spec fn eq_spec(&self, other: &Bucket) -> bool {
        self.ident() == other.ident()
    }
}

} // verus!
