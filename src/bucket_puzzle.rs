use std::rc::Rc;
use vstd::prelude::*;

use crate::bucket::Bucket;

verus! {

/// Which of the one-bucket moves a puzzle allows. Pouring is always allowed.
#[derive(Clone, Copy, Debug)]
pub struct Rules {
    can_fill: bool,
    can_empty: bool,
}

impl Rules {
    pub closed spec fn fill_allowed(&self) -> bool {
        self.can_fill
    }

    pub closed spec fn empty_allowed(&self) -> bool {
        self.can_empty
    }

    pub fn new(can_fill: bool, can_empty: bool) -> (r: Rules)
        ensures
            r.fill_allowed() == can_fill,
            r.empty_allowed() == can_empty,
    {
        Rules { can_fill, can_empty }
    }

    pub fn can_fill(&self) -> (r: bool)
        ensures
            r == self.fill_allowed(),
    {
        self.can_fill
    }

    pub fn can_empty(&self) -> (r: bool)
        ensures
            r == self.empty_allowed(),
    {
        self.can_empty
    }
}

/// The move that produced a state from its parent, with the buckets as they were before it.
#[derive(Clone, Copy, Debug)]
pub enum Move {
    Emptied(Bucket),
    Filled(Bucket),
    Poured { amount: u8, from: Bucket, to: Bucket },
}

/// What a pour moves: all of the source, or as much as the destination still takes.
pub open spec fn pour_amount(from: Bucket, to: Bucket) -> nat {
    if from.level() <= to.spec_remaining() {
        from.level()
    } else {
        to.spec_remaining()
    }
}

/// Bucket `b` after move `m`; buckets the move does not name keep their level.
pub open spec fn moved(b: Bucket, m: Move) -> Bucket {
    match m {
        Move::Emptied(x) => if b.ident() == x.ident() {
            b.with_level(0)
        } else {
            b
        },
        Move::Filled(x) => if b.ident() == x.ident() {
            b.with_level(b.cap())
        } else {
            b
        },
        Move::Poured { amount, from, to } => if b.ident() == from.ident() {
            b.with_level((b.level() - amount) as nat)
        } else if b.ident() == to.ident() {
            b.with_level((b.level() + amount) as nat)
        } else {
            b
        },
    }
}

pub open spec fn apply_move(bs: Seq<Bucket>, m: Move) -> Seq<Bucket> {
    bs.map_values(|b: Bucket| moved(b, m))
}

/// The pours out of bucket `i` into the first `n` buckets, in order.
pub open spec fn pours(bs: Seq<Bucket>, i: int, n: int) -> Seq<Move>
    decreases n,
{
    if n <= 0 {
        Seq::empty()
    } else {
        let to = bs[n - 1];
        pours(bs, i, n - 1) + if to.ident() != bs[i].ident() && !to.spec_is_full() {
            seq![Move::Poured { amount: pour_amount(bs[i], to) as u8, from: bs[i], to }]
        } else {
            Seq::empty()
        }
    }
}

/// The moves that start at bucket `i`: empty it, fill it, pour it into each other bucket.
pub open spec fn moves_at(bs: Seq<Bucket>, rules: Rules, i: int) -> Seq<Move> {
    let b = bs[i];
    (if rules.empty_allowed() && !b.spec_is_empty() {
        seq![Move::Emptied(b)]
    } else {
        Seq::empty()
    }) + (if rules.fill_allowed() && !b.spec_is_full() {
        seq![Move::Filled(b)]
    } else {
        Seq::empty()
    }) + (if !b.spec_is_empty() {
        pours(bs, i, bs.len() as int)
    } else {
        Seq::empty()
    })
}

/// The moves that start at one of the first `n` buckets, in order.
pub open spec fn moves_upto(bs: Seq<Bucket>, rules: Rules, n: int) -> Seq<Move>
    decreases n,
{
    if n <= 0 {
        Seq::empty()
    } else {
        moves_upto(bs, rules, n - 1) + moves_at(bs, rules, n - 1)
    }
}

/// Every legal move of a configuration, in the order in which successors are generated.
pub open spec fn legal_moves(bs: Seq<Bucket>, rules: Rules) -> Seq<Move> {
    moves_upto(bs, rules, bs.len() as int)
}

pub open spec fn buckets_wf(bs: Seq<Bucket>) -> bool {
    forall|i: int| 0 <= i < bs.len() ==> #[trigger] bs[i].wf()
}

pub open spec fn distinct_ids(bs: Seq<Bucket>) -> bool {
    forall|i: int, j: int|
        0 <= i < bs.len() && 0 <= j < bs.len() && i != j ==> #[trigger] bs[i].ident()
            != #[trigger] bs[j].ident()
}

/// The same physical buckets, slot by slot.
pub open spec fn same_buckets(a: Seq<Bucket>, b: Seq<Bucket>) -> bool {
    &&& a.len() == b.len()
    &&& forall|i: int|
        0 <= i < a.len() ==> #[trigger] a[i].ident() == b[i].ident() && a[i].cap() == b[i].cap()
}

/// Some bucket holds exactly `target`.
pub open spec fn has_level(bs: Seq<Bucket>, target: nat) -> bool {
    exists|i: int| 0 <= i < bs.len() && #[trigger] bs[i].level() == target
}

/// Pouring conserves volume: after bucket `i` is poured into bucket `j`, the two hold together
/// what they held before, neither leaves its range, and every other bucket is unchanged.
pub proof fn lemma_pour_conserves(bs: Seq<Bucket>, i: int, j: int)
    requires
        buckets_wf(bs),
        distinct_ids(bs),
        0 <= i < bs.len(),
        0 <= j < bs.len(),
        i != j,
    ensures
        ({
            let m = Move::Poured {
                amount: pour_amount(bs[i], bs[j]) as u8,
                from: bs[i],
                to: bs[j],
            };
            let after = apply_move(bs, m);
            &&& after.len() == bs.len()
            &&& after[i].level() + after[j].level() == bs[i].level() + bs[j].level()
            &&& after[i].level() == bs[i].level() - pour_amount(bs[i], bs[j])
            &&& after[i].wf()
            &&& after[j].wf()
            &&& after[j].level() <= after[j].cap()
            &&& forall|k: int| 0 <= k < bs.len() && k != i && k != j ==> #[trigger] after[k] == bs[k]
        }),
{
    let a = pour_amount(bs[i], bs[j]);
    assert(bs[i].wf() && bs[j].wf());
    bs[i].lemma_bounds();
    bs[j].lemma_bounds();
    bs[i].lemma_with_level((bs[i].level() - a) as nat);
    bs[j].lemma_with_level((bs[j].level() + a) as nat);
    assert(bs[i].ident() != bs[j].ident());
    assert forall|k: int| 0 <= k < bs.len() && k != i && k != j implies #[trigger] apply_move(
        bs,
        Move::Poured { amount: a as u8, from: bs[i], to: bs[j] },
    )[k] == bs[k] by {
        assert(bs[k].ident() != bs[i].ident());
        assert(bs[k].ident() != bs[j].ident());
    }
}

/// Move `m` leaves the buckets of `bs` in range, with their identities and capacities.
pub open spec fn keeps_buckets(bs: Seq<Bucket>, m: Move) -> bool {
    &&& buckets_wf(apply_move(bs, m))
    &&& same_buckets(bs, apply_move(bs, m))
}

proof fn lemma_same_buckets_distinct(a: Seq<Bucket>, b: Seq<Bucket>)
    requires
        same_buckets(a, b),
        distinct_ids(a),
    ensures
        distinct_ids(b),
{
    assert forall|i: int, j: int|
        0 <= i < b.len() && 0 <= j < b.len() && i != j implies #[trigger] b[i].ident()
        != #[trigger] b[j].ident() by {
        assert(a[i].ident() == b[i].ident());
        assert(a[j].ident() == b[j].ident());
    }
}

proof fn lemma_one_bucket_move_keeps(bs: Seq<Bucket>, i: int, m: Move)
    requires
        buckets_wf(bs),
        0 <= i < bs.len(),
        m == Move::Emptied(bs[i]) || m == Move::Filled(bs[i]),
    ensures
        keeps_buckets(bs, m),
{
    let after = apply_move(bs, m);
    assert forall|t: int| #![trigger after[t]]
        0 <= t < after.len() implies after[t].wf() && after[t].ident() == bs[t].ident()
            && after[t].cap() == bs[t].cap() by {
        assert(bs[t].wf());
        bs[t].lemma_bounds();
        bs[t].lemma_with_level(0);
        bs[t].lemma_with_level(bs[t].cap());
    }
}

proof fn lemma_pour_keeps(bs: Seq<Bucket>, i: int, j: int)
    requires
        buckets_wf(bs),
        distinct_ids(bs),
        0 <= i < bs.len(),
        0 <= j < bs.len(),
        bs[i].ident() != bs[j].ident(),
    ensures
        keeps_buckets(
            bs,
            Move::Poured { amount: pour_amount(bs[i], bs[j]) as u8, from: bs[i], to: bs[j] },
        ),
{
    lemma_pour_conserves(bs, i, j);
    let a = pour_amount(bs[i], bs[j]);
    assert(bs[i].wf() && bs[j].wf());
    bs[i].lemma_bounds();
    bs[j].lemma_bounds();
    assert((a as u8) as nat == a);
    let after = apply_move(bs, Move::Poured { amount: a as u8, from: bs[i], to: bs[j] });
    bs[i].lemma_with_level((bs[i].level() - a) as nat);
    bs[j].lemma_with_level((bs[j].level() + a) as nat);
    assert forall|t: int| #![trigger after[t]]
        0 <= t < after.len() implies after[t].wf() && after[t].ident() == bs[t].ident()
            && after[t].cap() == bs[t].cap() by {
        if t != i && t != j {
            assert(after[t] == bs[t]);
            assert(bs[t].wf());
        }
    }
}

proof fn lemma_pours_keep(bs: Seq<Bucket>, i: int, j: int)
    requires
        buckets_wf(bs),
        distinct_ids(bs),
        0 <= i < bs.len(),
        0 <= j <= bs.len(),
    ensures
        forall|k: int|
            0 <= k < pours(bs, i, j).len() ==> keeps_buckets(bs, #[trigger] pours(bs, i, j)[k]),
    decreases j,
{
    if j > 0 {
        lemma_pours_keep(bs, i, j - 1);
        if bs[j - 1].ident() != bs[i].ident() && !bs[j - 1].spec_is_full() {
            lemma_pour_keeps(bs, i, j - 1);
        }
        let prev = pours(bs, i, j - 1);
        assert forall|k: int|
            0 <= k < pours(bs, i, j).len() implies keeps_buckets(
            bs,
            #[trigger] pours(bs, i, j)[k],
        ) by {
            if k < prev.len() {
                assert(pours(bs, i, j)[k] == prev[k]);
            }
        }
    }
}

proof fn lemma_moves_upto_keep(bs: Seq<Bucket>, rules: Rules, n: int)
    requires
        buckets_wf(bs),
        distinct_ids(bs),
        0 <= n <= bs.len(),
    ensures
        forall|k: int|
            0 <= k < moves_upto(bs, rules, n).len() ==> keeps_buckets(
                bs,
                #[trigger] moves_upto(bs, rules, n)[k],
            ),
    decreases n,
{
    if n > 0 {
        let i = n - 1;
        lemma_moves_upto_keep(bs, rules, i);
        lemma_pours_keep(bs, i, bs.len() as int);
        lemma_one_bucket_move_keeps(bs, i, Move::Emptied(bs[i]));
        lemma_one_bucket_move_keeps(bs, i, Move::Filled(bs[i]));
        let prev = moves_upto(bs, rules, i);
        let here = moves_at(bs, rules, i);
        assert forall|k: int| 0 <= k < here.len() implies keeps_buckets(bs, #[trigger] here[k]) by {
            let e = if rules.empty_allowed() && !bs[i].spec_is_empty() {
                seq![Move::Emptied(bs[i])]
            } else {
                Seq::empty()
            };
            let f = if rules.fill_allowed() && !bs[i].spec_is_full() {
                seq![Move::Filled(bs[i])]
            } else {
                Seq::empty()
            };
            let ps = if !bs[i].spec_is_empty() {
                pours(bs, i, bs.len() as int)
            } else {
                Seq::empty()
            };
            assert(here == e + f + ps);
            if k >= e.len() + f.len() {
                assert(here[k] == ps[k - e.len() - f.len()]);
            }
        }
        assert forall|k: int|
            0 <= k < moves_upto(bs, rules, n).len() implies keeps_buckets(
            bs,
            #[trigger] moves_upto(bs, rules, n)[k],
        ) by {
            if k < prev.len() {
                assert(moves_upto(bs, rules, n)[k] == prev[k]);
            } else {
                assert(moves_upto(bs, rules, n)[k] == here[k - prev.len()]);
            }
        }
    }
}

/// Every legal move keeps each bucket within its capacity and leaves identities and
/// capacities as they were.
pub proof fn lemma_legal_moves_keep_buckets(bs: Seq<Bucket>, rules: Rules, k: int)
    requires
        buckets_wf(bs),
        distinct_ids(bs),
        0 <= k < legal_moves(bs, rules).len(),
    ensures
        keeps_buckets(bs, legal_moves(bs, rules)[k]),
        distinct_ids(apply_move(bs, legal_moves(bs, rules)[k])),
{
    lemma_moves_upto_keep(bs, rules, bs.len() as int);
    lemma_same_buckets_distinct(bs, apply_move(bs, legal_moves(bs, rules)[k]));
}

/// One state of the puzzle: the buckets, the rules and target shared by the whole search,
/// how many moves lie behind it, and the state and move it came from.
pub struct BucketPuzzle {
    buckets: Vec<Bucket>,
    rules: Rules,
    target_volume: u8,
    depth: u8,
    parent: Option<Rc<BucketPuzzle>>,
    reason: Option<Move>,
}

impl BucketPuzzle {
    pub closed spec fn spec_buckets(&self) -> Seq<Bucket> {
        self.buckets@
    }

    pub closed spec fn spec_rules(&self) -> Rules {
        self.rules
    }

    pub closed spec fn spec_target(&self) -> nat {
        self.target_volume as nat
    }

    pub closed spec fn spec_depth(&self) -> nat {
        self.depth as nat
    }

    pub closed spec fn spec_parent(&self) -> Option<BucketPuzzle> {
        match self.parent {
            Some(p) => Some(*p),
            None => None,
        }
    }

    pub closed spec fn spec_reason(&self) -> Option<Move> {
        self.reason
    }

    /// `self` and `other` are the same state, down to parent and move.
    pub open spec fn same_state(&self, other: BucketPuzzle) -> bool {
        &&& self.spec_buckets() == other.spec_buckets()
        &&& self.spec_rules() == other.spec_rules()
        &&& self.spec_target() == other.spec_target()
        &&& self.spec_depth() == other.spec_depth()
        &&& self.spec_parent() == other.spec_parent()
        &&& self.spec_reason() == other.spec_reason()
    }

    /// `self` is the state that move `m` makes from `p`.
    pub open spec fn is_child_of(&self, p: BucketPuzzle, m: Move) -> bool {
        &&& self.spec_buckets() == apply_move(p.spec_buckets(), m)
        &&& self.spec_reason() == Some(m)
        &&& self.spec_depth() == p.spec_depth() + 1
        &&& self.spec_rules() == p.spec_rules()
        &&& self.spec_target() == p.spec_target()
        &&& self.spec_parent() matches Some(q) && q.same_state(p)
    }

    pub open spec fn wf(&self) -> bool {
        &&& buckets_wf(self.spec_buckets())
        &&& distinct_ids(self.spec_buckets())
        &&& self.spec_reason() is Some <==> self.spec_parent() is Some
        &&& match self.spec_parent() {
            None => self.spec_depth() == 0,
            Some(p) => {
                &&& self.spec_depth() == p.spec_depth() + 1
                &&& same_buckets(p.spec_buckets(), self.spec_buckets())
                &&& self.spec_rules() == p.spec_rules()
                &&& self.spec_target() == p.spec_target()
            },
        }
    }

    pub open spec fn spec_is_goal(&self) -> bool {
        has_level(self.spec_buckets(), self.spec_target())
    }

    /// No state whose buckets are those of `bs` is a goal when every capacity lies below the
    /// target: a target that no bucket can hold is never reached.
    pub proof fn lemma_target_out_of_reach(&self, bs: Seq<Bucket>)
        requires
            self.wf(),
            same_buckets(bs, self.spec_buckets()),
            forall|i: int| 0 <= i < bs.len() ==> #[trigger] bs[i].cap() < self.spec_target(),
        ensures
            !self.spec_is_goal(),
    {
        let cur = self.spec_buckets();
        assert forall|i: int| 0 <= i < cur.len() implies #[trigger] cur[i].level() != self.spec_target() by {
            assert(cur[i].wf());
            assert(bs[i].ident() == cur[i].ident());
            assert(bs[i].cap() == cur[i].cap());
        }
    }

    /// The initial state of a puzzle. The buckets must carry distinct identities.
    pub fn from(buckets: Vec<Bucket>, rules: Rules, target_volume: u8) -> (r: BucketPuzzle)
        requires
            buckets_wf(buckets@),
            distinct_ids(buckets@),
        ensures
            r.wf(),
            r.spec_buckets() == buckets@,
            r.spec_rules() == rules,
            r.spec_target() == target_volume,
            r.spec_depth() == 0,
            r.spec_parent() is None,
            r.spec_reason() is None,
    {
        BucketPuzzle { buckets, rules, target_volume, depth: 0, parent: None, reason: None }
    }

    fn from_parent(parent: &Rc<BucketPuzzle>, buckets: Vec<Bucket>, reason: Move) -> (r:
        BucketPuzzle)
        requires
            parent.spec_depth() < 255,
        ensures
            r.spec_buckets() == buckets@,
            r.spec_reason() == Some(reason),
            r.spec_depth() == parent.spec_depth() + 1,
            r.spec_rules() == parent.spec_rules(),
            r.spec_target() == parent.spec_target(),
            r.spec_parent() == Some(**parent),
    {
        BucketPuzzle {
            buckets,
            rules: parent.rules,
            target_volume: parent.target_volume,
            depth: parent.depth + 1,
            parent: Some(parent.clone()),
            reason: Some(reason),
        }
    }

    /// A copy of this state, to be shared as the parent of its successors.
    fn snapshot(&self) -> (r: BucketPuzzle)
        ensures
            r.same_state(*self),
    {
        let mut buckets: Vec<Bucket> = Vec::with_capacity(self.buckets.len());
        let mut i: usize = 0;
        while i < self.buckets.len()
            invariant
                i <= self.buckets@.len(),
                buckets@ == self.buckets@.take(i as int),
            decreases self.buckets@.len() - i,
        {
            buckets.push(self.buckets[i]);
            i += 1;
            assert(buckets@ =~= self.buckets@.take(i as int));
        }
        assert(buckets@ =~= self.buckets@);
        let parent = match &self.parent {
            Some(p) => Some(p.clone()),
            None => None,
        };
        BucketPuzzle {
            buckets,
            rules: self.rules,
            target_volume: self.target_volume,
            depth: self.depth,
            parent,
            reason: self.reason,
        }
    }

    pub fn is_goal_state(&self) -> (r: bool)
        ensures
            r == self.spec_is_goal(),
    {
        let mut i: usize = 0;
        while i < self.buckets.len()
            invariant
                i <= self.buckets@.len(),
                forall|k: int| 0 <= k < i ==> #[trigger] self.buckets@[k].level() != self.target_volume,
            decreases self.buckets@.len() - i,
        {
            if self.buckets[i].used_capacity() == self.target_volume {
                return true;
            }
            i += 1;
        }
        false
    }
    /// The successor in which `bucket` has been emptied.
    fn empty(&self, parent: &Rc<BucketPuzzle>, bucket: &Bucket) -> (r: BucketPuzzle)
        requires
            self.wf(),
            parent.same_state(*self),
            self.spec_depth() < 255,
            exists|k: int| 0 <= k < self.spec_buckets().len() && self.spec_buckets()[k] == *bucket,
        ensures
            r.wf(),
            r.is_child_of(*self, Move::Emptied(*bucket)),
    {
        let ghost m = Move::Emptied(*bucket);
        let mut buckets: Vec<Bucket> = Vec::with_capacity(self.buckets.len());
        let mut i: usize = 0;
        while i < self.buckets.len()
            invariant
                self.wf(),
                m == Move::Emptied(*bucket),
                i <= self.buckets@.len(),
                buckets@.len() == i,
                forall|t: int| 0 <= t < i ==> #[trigger] buckets@[t] == moved(self.buckets@[t], m),
                forall|t: int|
                    0 <= t < i ==> (#[trigger] buckets@[t]).wf() && buckets@[t].ident()
                        == self.buckets@[t].ident() && buckets@[t].cap() == self.buckets@[t].cap(),
            decreases self.buckets@.len() - i,
        {
            let existing = self.buckets[i];
            assert(existing.wf());
            if *bucket == existing {
                buckets.push(existing.empty());
            } else {
                buckets.push(existing);
            }
            i += 1;
        }
        assert(buckets@ =~= apply_move(self.buckets@, m));
        BucketPuzzle::from_parent(parent, buckets, Move::Emptied(*bucket))
    }

    /// The successor in which `bucket` has been filled.
    fn fill(&self, parent: &Rc<BucketPuzzle>, bucket: &Bucket) -> (r: BucketPuzzle)
        requires
            self.wf(),
            parent.same_state(*self),
            self.spec_depth() < 255,
            exists|k: int| 0 <= k < self.spec_buckets().len() && self.spec_buckets()[k] == *bucket,
        ensures
            r.wf(),
            r.is_child_of(*self, Move::Filled(*bucket)),
    {
        let ghost m = Move::Filled(*bucket);
        let mut buckets: Vec<Bucket> = Vec::with_capacity(self.buckets.len());
        let mut i: usize = 0;
        while i < self.buckets.len()
            invariant
                self.wf(),
                m == Move::Filled(*bucket),
                i <= self.buckets@.len(),
                buckets@.len() == i,
                forall|t: int| 0 <= t < i ==> #[trigger] buckets@[t] == moved(self.buckets@[t], m),
                forall|t: int|
                    0 <= t < i ==> (#[trigger] buckets@[t]).wf() && buckets@[t].ident()
                        == self.buckets@[t].ident() && buckets@[t].cap() == self.buckets@[t].cap(),
            decreases self.buckets@.len() - i,
        {
            let existing = self.buckets[i];
            assert(existing.wf());
            if *bucket == existing {
                buckets.push(existing.fill());
            } else {
                buckets.push(existing);
            }
            i += 1;
        }
        assert(buckets@ =~= apply_move(self.buckets@, m));
        BucketPuzzle::from_parent(parent, buckets, Move::Filled(*bucket))
    }

    /// The successor in which `from_bucket` has been poured into `to_bucket`, until the one is
    /// empty or the other full.
    fn pour(&self, parent: &Rc<BucketPuzzle>, from_bucket: &Bucket, to_bucket: &Bucket) -> (r:
        BucketPuzzle)
        requires
            self.wf(),
            parent.same_state(*self),
            self.spec_depth() < 255,
            exists|k: int|
                0 <= k < self.spec_buckets().len() && self.spec_buckets()[k] == *from_bucket,
            exists|k: int| 0 <= k < self.spec_buckets().len() && self.spec_buckets()[k] == *to_bucket,
            from_bucket.ident() != to_bucket.ident(),
        ensures
            r.wf(),
            r.is_child_of(
                *self,
                Move::Poured {
                    amount: pour_amount(*from_bucket, *to_bucket) as u8,
                    from: *from_bucket,
                    to: *to_bucket,
                },
            ),
    {
        let ghost fk = choose|k: int|
            0 <= k < self.spec_buckets().len() && self.spec_buckets()[k] == *from_bucket;
        let ghost tk = choose|k: int|
            0 <= k < self.spec_buckets().len() && self.spec_buckets()[k] == *to_bucket;
        assert(from_bucket.wf() && to_bucket.wf());
        let mut pour_amount: u8 = from_bucket.used_capacity();
        if to_bucket.remaining_capacity() < pour_amount {
            pour_amount = to_bucket.remaining_capacity();
        }
        let pour_amount = pour_amount;
        let ghost m = Move::Poured { amount: pour_amount, from: *from_bucket, to: *to_bucket };
        let mut buckets: Vec<Bucket> = Vec::with_capacity(self.buckets.len());
        let mut i: usize = 0;
        while i < self.buckets.len()
            invariant
                self.wf(),
                0 <= fk < self.buckets@.len(),
                0 <= tk < self.buckets@.len(),
                self.buckets@[fk] == *from_bucket,
                self.buckets@[tk] == *to_bucket,
                pour_amount <= from_bucket.level(),
                pour_amount <= to_bucket.spec_remaining(),
                m == (Move::Poured { amount: pour_amount, from: *from_bucket, to: *to_bucket }),
                i <= self.buckets@.len(),
                buckets@.len() == i,
                forall|t: int| 0 <= t < i ==> #[trigger] buckets@[t] == moved(self.buckets@[t], m),
                forall|t: int|
                    0 <= t < i ==> (#[trigger] buckets@[t]).wf() && buckets@[t].ident()
                        == self.buckets@[t].ident() && buckets@[t].cap() == self.buckets@[t].cap(),
            decreases self.buckets@.len() - i,
        {
            let existing = self.buckets[i];
            assert(existing.wf());
            if *from_bucket == existing {
                assert(i as int == fk);
                match existing.pour_from(pour_amount) {
                    Ok(b) => buckets.push(b),
                    Err(_) => {
                        assert(false);
                        buckets.push(existing);
                    },
                }
            } else if *to_bucket == existing {
                assert(i as int == tk);
                match existing.pour_into(pour_amount) {
                    Ok(b) => buckets.push(b),
                    Err(_) => {
                        assert(false);
                        buckets.push(existing);
                    },
                }
            } else {
                buckets.push(existing);
            }
            i += 1;
        }
        assert(buckets@ =~= apply_move(self.buckets@, m));
        BucketPuzzle::from_parent(parent, buckets, Move::Poured { amount: pour_amount, from: *from_bucket, to: *to_bucket })
    }
    /// The successors of this state, one for each legal move, in generation order; none once
    /// `limit` moves lie behind it.
    pub fn expand(&self, limit: u8) -> (r: Vec<BucketPuzzle>)
        requires
            self.wf(),
        ensures
            self.spec_depth() >= limit ==> r@.len() == 0,
            self.spec_depth() < limit ==> r@.len() == legal_moves(
                self.spec_buckets(),
                self.spec_rules(),
            ).len(),
            self.spec_depth() < limit ==> forall|k: int|
                0 <= k < r@.len() ==> #[trigger] r@[k].is_child_of(
                    *self,
                    legal_moves(self.spec_buckets(), self.spec_rules())[k],
                ),
            forall|k: int| 0 <= k < r@.len() ==> (#[trigger] r@[k]).wf(),
    {
        let mut expanded: Vec<BucketPuzzle> = Vec::new();
        if self.depth < limit {
            let snap = Rc::new(self.snapshot());
            let ghost bs = self.buckets@;
            let ghost rules = self.rules;
            let ghost mut done: Seq<Move> = Seq::empty();
            let n = self.buckets.len();
            let mut i: usize = 0;
            while i < n
                invariant
                    self.wf(),
                    self.depth < limit,
                    snap.same_state(*self),
                    bs == self.spec_buckets(),
                    rules == self.spec_rules(),
                    n == bs.len(),
                    i <= n,
                    done == moves_upto(bs, rules, i as int),
                    expanded@.len() == done.len(),
                    forall|k: int|
                        0 <= k < expanded@.len() ==> (#[trigger] expanded@[k]).is_child_of(
                            *self,
                            done[k],
                        ) && expanded@[k].wf(),
                decreases n - i,
            {
                let bucket = self.buckets[i];
                assert(bucket.wf());
                assert(self.spec_buckets()[i as int] == bucket);
                let ghost start = done;
                if self.rules.can_empty && !bucket.is_empty() {
                    expanded.push(self.empty(&snap, &bucket));
                    proof {
                        done = done.push(Move::Emptied(bucket));
                    }
                }
                if self.rules.can_fill && !bucket.is_full() {
                    expanded.push(self.fill(&snap, &bucket));
                    proof {
                        done = done.push(Move::Filled(bucket));
                    }
                }
                let ghost front = done;
                if !bucket.is_empty() {
                    let mut j: usize = 0;
                    while j < n
                        invariant
                            self.wf(),
                            self.depth < limit,
                            snap.same_state(*self),
                            bs == self.spec_buckets(),
                            n == bs.len(),
                            i < n,
                            j <= n,
                            bucket == bs[i as int],
                            bucket.wf(),
                            done == front + pours(bs, i as int, j as int),
                            expanded@.len() == done.len(),
                            forall|k: int|
                                0 <= k < expanded@.len() ==> (#[trigger] expanded@[k]).is_child_of(
                                    *self,
                                    done[k],
                                ) && expanded@[k].wf(),
                        decreases n - j,
                    {
                        let other_bucket = self.buckets[j];
                        assert(other_bucket.wf());
                        assert(self.spec_buckets()[j as int] == other_bucket);
                        if bucket != other_bucket && !other_bucket.is_full() {
                            expanded.push(self.pour(&snap, &bucket, &other_bucket));
                            proof {
                                done = done.push(
                                    Move::Poured {
                                        amount: pour_amount(bucket, other_bucket) as u8,
                                        from: bucket,
                                        to: other_bucket,
                                    },
                                );
                            }
                        }
                        j += 1;
                        assert(done =~= front + pours(bs, i as int, j as int));
                    }
                }
                assert(done =~= moves_upto(bs, rules, i + 1));
                i += 1;
            }
        }
        expanded
    }
    pub fn buckets(&self) -> (r: &Vec<Bucket>)
        ensures
            r@ == self.spec_buckets(),
    {
        &self.buckets
    }

    pub fn rules(&self) -> (r: Rules)
        ensures
            r == self.spec_rules(),
    {
        self.rules
    }

    pub fn target_volume(&self) -> (r: u8)
        ensures
            r == self.spec_target(),
    {
        self.target_volume
    }

    pub fn depth(&self) -> (r: u8)
        ensures
            r == self.spec_depth(),
    {
        self.depth
    }

    /// The state this one was made from, if any.
    pub fn parent(&self) -> (r: Option<&BucketPuzzle>)
        ensures
            r matches Some(p) ==> self.spec_parent() == Some(*p),
            r is None <==> self.spec_parent() is None,
    {
        match &self.parent {
            Some(p) => Some(&**p),
            None => None,
        }
    }

    /// The move that made this state from its parent, if any.
    pub fn reason(&self) -> (r: Option<Move>)
        ensures
            r == self.spec_reason(),
    {
        self.reason
    }
}

} // verus!
