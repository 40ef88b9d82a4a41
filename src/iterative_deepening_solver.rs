use vstd::prelude::*;

use crate::bucket::Bucket;
use crate::bucket_puzzle::{
    apply_move, buckets_wf, distinct_ids, has_level, lemma_legal_moves_keep_buckets, legal_moves, moves_at, moves_upto, pours, same_buckets, BucketPuzzle,
    Move, Rules,
};

verus! {

/// The configuration reached from `bs` by taking, at each step, the legal move of the given index.
pub open spec fn follow(bs: Seq<Bucket>, rules: Rules, path: Seq<int>) -> Seq<Bucket>
    decreases path.len(),
{
    if path.len() == 0 {
        bs
    } else {
        follow(apply_move(bs, legal_moves(bs, rules)[path[0]]), rules, path.drop_first())
    }
}

/// Every index of `path` names a legal move of the configuration it is taken in.
pub open spec fn valid_path(bs: Seq<Bucket>, rules: Rules, path: Seq<int>) -> bool
    decreases path.len(),
{
    path.len() == 0 || (0 <= path[0] < legal_moves(bs, rules).len() && valid_path(
        apply_move(bs, legal_moves(bs, rules)[path[0]]),
        rules,
        path.drop_first(),
    ))
}

/// Some configuration that at most `d` legal moves reach from `bs` has a bucket holding `target`.
pub open spec fn goal_within(bs: Seq<Bucket>, rules: Rules, target: nat, d: nat) -> bool {
    exists|path: Seq<int>|
        path.len() <= d && valid_path(bs, rules, path) && #[trigger] has_level(
            follow(bs, rules, path),
            target,
        )
}

/// How many more moves a state at `depth` may take under `limit`.
pub open spec fn moves_left(limit: nat, depth: nat) -> nat {
    if depth <= limit {
        (limit - depth) as nat
    } else {
        0
    }
}

proof fn lemma_goal_here(bs: Seq<Bucket>, rules: Rules, target: nat, d: nat)
    requires
        has_level(bs, target),
    ensures
        goal_within(bs, rules, target, d),
{
    let path = Seq::<int>::empty();
    assert(follow(bs, rules, path) == bs);
    assert(has_level(follow(bs, rules, path), target));
}

/// A goal within `d - 1` moves of a successor is within `d` moves of its parent.
proof fn lemma_goal_from_child(bs: Seq<Bucket>, rules: Rules, target: nat, d: nat, k: int)
    requires
        0 <= k < legal_moves(bs, rules).len(),
        d > 0,
        goal_within(apply_move(bs, legal_moves(bs, rules)[k]), rules, target, (d - 1) as nat),
    ensures
        goal_within(bs, rules, target, d),
{
    let child = apply_move(bs, legal_moves(bs, rules)[k]);
    let p = choose|path: Seq<int>|
        path.len() <= d - 1 && valid_path(child, rules, path) && #[trigger] has_level(
            follow(child, rules, path),
            target,
        );
    let q = seq![k] + p;
    assert(q.drop_first() =~= p);
    assert(q[0] == k);
    assert(valid_path(bs, rules, q));
    assert(follow(bs, rules, q) == follow(child, rules, p));
    assert(has_level(follow(bs, rules, q), target));
}

/// A goal within `d` moves of a configuration that is no goal itself lies within `d - 1` moves
/// of one of its successors.
proof fn lemma_goal_through_child(bs: Seq<Bucket>, rules: Rules, target: nat, d: nat) -> (k: int)
    requires
        goal_within(bs, rules, target, d),
        !has_level(bs, target),
    ensures
        d > 0,
        0 <= k < legal_moves(bs, rules).len(),
        goal_within(apply_move(bs, legal_moves(bs, rules)[k]), rules, target, (d - 1) as nat),
{
    let p = choose|path: Seq<int>|
        path.len() <= d && valid_path(bs, rules, path) && #[trigger] has_level(
            follow(bs, rules, path),
            target,
        );
    if p.len() == 0 {
        assert(follow(bs, rules, p) == bs);
    }
    let k = p[0];
    let child = apply_move(bs, legal_moves(bs, rules)[k]);
    let rest = p.drop_first();
    assert(has_level(follow(child, rules, rest), target));
    k
}

proof fn lemma_follow_keeps(bs: Seq<Bucket>, rules: Rules, path: Seq<int>)
    requires
        buckets_wf(bs),
        distinct_ids(bs),
        valid_path(bs, rules, path),
    ensures
        buckets_wf(follow(bs, rules, path)),
        same_buckets(bs, follow(bs, rules, path)),
    decreases path.len(),
{
    if path.len() > 0 {
        let child = apply_move(bs, legal_moves(bs, rules)[path[0]]);
        lemma_legal_moves_keep_buckets(bs, rules, path[0]);
        lemma_follow_keeps(child, rules, path.drop_first());
        lemma_same_buckets_trans(bs, child, follow(child, rules, path.drop_first()));
    } else {
        assert forall|i: int| 0 <= i < bs.len() implies #[trigger] bs[i].ident() == bs[i].ident()
            && bs[i].cap() == bs[i].cap() by {}
    }
}

/// A target that exceeds every bucket's capacity is out of reach at any depth.
pub proof fn lemma_target_above_capacities(bs: Seq<Bucket>, rules: Rules, target: nat, d: nat)
    requires
        buckets_wf(bs),
        distinct_ids(bs),
        forall|i: int| 0 <= i < bs.len() ==> #[trigger] bs[i].cap() < target,
    ensures
        !goal_within(bs, rules, target, d),
{
    assert forall|path: Seq<int>|
        path.len() <= d && valid_path(bs, rules, path) implies !#[trigger] has_level(
        follow(bs, rules, path),
        target,
    ) by {
        lemma_follow_keeps(bs, rules, path);
        let end = follow(bs, rules, path);
        assert forall|i: int| 0 <= i < end.len() implies #[trigger] end[i].level() != target by {
            assert(end[i].wf());
            assert(bs[i].ident() == end[i].ident());
            assert(bs[i].cap() == end[i].cap());
        }
    }
}

/// A bound on the states of a search tree of depth `d` whose nodes have at most `b` children.
spec fn subtree_bound(d: int, b: nat) -> nat
    decreases d,
{
    if d <= 0 {
        1
    } else {
        1 + b * subtree_bound(d - 1, b)
    }
}

/// A bound on the states that a frontier can still bring into the search.
spec fn frontier_bound(f: Seq<BucketPuzzle>, limit: int, b: nat) -> nat
    decreases f.len(),
{
    if f.len() == 0 {
        0
    } else {
        frontier_bound(f.drop_last(), limit, b) + subtree_bound(limit - f.last().spec_depth(), b)
    }
}

proof fn lemma_same_buckets_trans(a: Seq<Bucket>, b: Seq<Bucket>, c: Seq<Bucket>)
    requires
        same_buckets(a, b),
        same_buckets(b, c),
    ensures
        same_buckets(a, c),
{
    assert forall|i: int| 0 <= i < a.len() implies #[trigger] a[i].ident() == c[i].ident()
        && a[i].cap() == c[i].cap() by {
        assert(a[i].ident() == b[i].ident());
        assert(b[i].ident() == c[i].ident());
    }
}

proof fn lemma_child_same_buckets(p: BucketPuzzle, c: BucketPuzzle, m: Move)
    requires
        c.wf(),
        c.is_child_of(p, m),
    ensures
        same_buckets(p.spec_buckets(), c.spec_buckets()),
{
}

proof fn lemma_pours_len(bs: Seq<Bucket>, i: int, j: int)
    requires
        0 <= j,
    ensures
        pours(bs, i, j).len() <= j,
    decreases j,
{
    if j > 0 {
        lemma_pours_len(bs, i, j - 1);
    }
}

proof fn lemma_moves_upto_len(bs: Seq<Bucket>, rules: Rules, i: int)
    requires
        0 <= i <= bs.len(),
    ensures
        moves_upto(bs, rules, i).len() <= i * (bs.len() + 2),
    decreases i,
{
    if i > 0 {
        lemma_moves_upto_len(bs, rules, i - 1);
        lemma_pours_len(bs, i - 1, bs.len() as int);
        assert(moves_at(bs, rules, i - 1).len() <= bs.len() + 2);
        let n = bs.len() + 2;
        assert((i - 1) * n + n == i * n) by (nonlinear_arith);
    }
}

proof fn lemma_frontier_bound_append(f: Seq<BucketPuzzle>, cs: Seq<BucketPuzzle>, limit: int, b: nat, d: nat)
    requires
        forall|k: int| 0 <= k < cs.len() ==> (#[trigger] cs[k]).spec_depth() == d,
    ensures
        frontier_bound(f + cs, limit, b) == frontier_bound(f, limit, b) + cs.len()
            * subtree_bound(limit - d, b),
    decreases cs.len(),
{
    if cs.len() == 0 {
        assert(f + cs =~= f);
    } else {
        let w = subtree_bound(limit - d, b);
        assert((f + cs).drop_last() =~= f + cs.drop_last());
        lemma_frontier_bound_append(f, cs.drop_last(), limit, b, d);
        let m = cs.len();
        assert((m - 1) * w + w == m * w) by (nonlinear_arith);
    }
}

/// A depth-first search over the states of a puzzle, bounded by a number of moves. It makes a
/// single pass at the given limit and does not restart with larger ones; states met twice are
/// explored twice.
pub struct IterativeDeepeningSolver {
    initial_state: BucketPuzzle,
    search_depth_limit: u8,
}

impl IterativeDeepeningSolver {
    pub closed spec fn spec_initial(&self) -> BucketPuzzle {
        self.initial_state
    }

    pub closed spec fn spec_limit(&self) -> nat {
        self.search_depth_limit as nat
    }

    pub fn new(initial_state: BucketPuzzle, search_depth_limit: u8) -> (r: IterativeDeepeningSolver)
        requires
            initial_state.wf(),
        ensures
            r.spec_initial() == initial_state,
            r.spec_limit() == search_depth_limit,
    {
        IterativeDeepeningSolver { initial_state, search_depth_limit }
    }

    /// Explores the states within the depth limit, most recent first, and returns the first
    /// one in which some bucket holds the target volume.
    pub fn solve(self) -> (r: Option<BucketPuzzle>)
        requires
            self.spec_initial().wf(),
        ensures
            r is Some <==> goal_within(
                self.spec_initial().spec_buckets(),
                self.spec_initial().spec_rules(),
                self.spec_initial().spec_target(),
                moves_left(self.spec_limit(), self.spec_initial().spec_depth()),
            ),
            r matches Some(g) ==> {
                &&& g.wf()
                &&& g.spec_is_goal()
                &&& g.spec_rules() == self.spec_initial().spec_rules()
                &&& g.spec_target() == self.spec_initial().spec_target()
                &&& same_buckets(self.spec_initial().spec_buckets(), g.spec_buckets())
            },
    {
        let limit = self.search_depth_limit;
        let ghost me = self;
        let ghost init = self.initial_state;
        let ghost rules = init.spec_rules();
        let ghost target = init.spec_target();
        let ghost n = init.spec_buckets().len();
        let ghost b = n * (n + 2);
        let ghost lim = limit as nat;
        let mut explored: Vec<BucketPuzzle> = Vec::new();
        let mut frontier: Vec<BucketPuzzle> = vec![self.initial_state];
        assert(frontier@[0] == init);
        proof {
            let gi = goal_within(init.spec_buckets(), rules, target, moves_left(lim, init.spec_depth()));
            if gi {
                assert(goal_within(frontier@[0].spec_buckets(), rules, target, moves_left(lim, frontier@[0].spec_depth())));
            }
        }
        loop
            invariant
                lim == limit,
                me == self,
                init == me.spec_initial(),
                lim == me.spec_limit(),
                b == n * (n + 2),
                init.wf(),
                rules == init.spec_rules(),
                target == init.spec_target(),
                n == init.spec_buckets().len(),
                forall|j: int|
                    0 <= j < frontier@.len() ==> {
                        &&& (#[trigger] frontier@[j]).wf()
                        &&& same_buckets(init.spec_buckets(), frontier@[j].spec_buckets())
                        &&& frontier@[j].spec_rules() == rules
                        &&& frontier@[j].spec_target() == target
                    },
                goal_within(init.spec_buckets(), rules, target, moves_left(lim, init.spec_depth()))
                    <==> exists|j: int|
                    0 <= j < frontier@.len() && goal_within(
                        (#[trigger] frontier@[j]).spec_buckets(),
                        rules,
                        target,
                        moves_left(lim, frontier@[j].spec_depth()),
                    ),
            decreases frontier_bound(frontier@, lim as int, b),
        {
            let ghost old_frontier = frontier@;
            match frontier.pop() {
                Some(to_explore) => {
                    let ghost s = to_explore;
                    let ghost rest = frontier@;
                    let ghost last = old_frontier.len() - 1;
                    assert(rest =~= old_frontier.drop_last());
                    assert(old_frontier[last] == s);
                    let ghost d = moves_left(lim, s.spec_depth());
                    if to_explore.is_goal_state() {
                        proof {
                            lemma_goal_here(s.spec_buckets(), rules, target, d);
                            assert(goal_within(
                                old_frontier[last].spec_buckets(),
                                rules,
                                target,
                                moves_left(lim, old_frontier[last].spec_depth()),
                            ));
                        }
                        return Some(to_explore);
                    } else {
                        let mut children = to_explore.expand(limit);
                        let ghost cs = children@;
                        let ghost lm = legal_moves(s.spec_buckets(), rules);
                        frontier.append(&mut children);
                        let ghost nf = frontier@;
                        assert(nf =~= rest + cs);
                        proof {
                            assert forall|j: int| 0 <= j < nf.len() implies {
                                &&& (#[trigger] nf[j]).wf()
                                &&& same_buckets(init.spec_buckets(), nf[j].spec_buckets())
                                &&& nf[j].spec_rules() == rules
                                &&& nf[j].spec_target() == target
                            } by {
                                if j >= rest.len() {
                                    let k = j - rest.len();
                                    let c = cs[k];
                                    assert(c == nf[j]);
                                    assert(s.spec_depth() < limit);
                                    assert(c.is_child_of(s, lm[k]));
                                    lemma_child_same_buckets(s, c, lm[k]);
                                    lemma_same_buckets_trans(
                                        init.spec_buckets(),
                                        s.spec_buckets(),
                                        c.spec_buckets(),
                                    );
                                } else {
                                    assert(nf[j] == old_frontier[j]);
                                }
                            }
                            // A child reaches a goal only if its parent does, and a parent that
                            // is no goal reaches one only through a child.
                            let gw = goal_within(
                                init.spec_buckets(),
                                rules,
                                target,
                                moves_left(lim, init.spec_depth()),
                            );
                            if gw {
                                let j0 = choose|j: int|
                                    0 <= j < old_frontier.len() && goal_within(
                                        (#[trigger] old_frontier[j]).spec_buckets(),
                                        rules,
                                        target,
                                        moves_left(lim, old_frontier[j].spec_depth()),
                                    );
                                if j0 < rest.len() {
                                    assert(nf[j0] == old_frontier[j0]);
                                } else {
                                    assert(j0 == last);
                                    let k = lemma_goal_through_child(s.spec_buckets(), rules, target, d);
                                    assert(s.spec_depth() < limit);
                                    let c = nf[rest.len() + k];
                                    assert(c == cs[k]);
                                    assert(c.is_child_of(s, lm[k]));
                                    assert(moves_left(lim, c.spec_depth()) == d - 1);
                                    assert(goal_within(c.spec_buckets(), rules, target, moves_left(lim, c.spec_depth())));
                                }
                            }
                            if exists|j: int|
                                0 <= j < nf.len() && goal_within(
                                    (#[trigger] nf[j]).spec_buckets(),
                                    rules,
                                    target,
                                    moves_left(lim, nf[j].spec_depth()),
                                ) {
                                let j1 = choose|j: int|
                                    0 <= j < nf.len() && goal_within(
                                        (#[trigger] nf[j]).spec_buckets(),
                                        rules,
                                        target,
                                        moves_left(lim, nf[j].spec_depth()),
                                    );
                                if j1 < rest.len() {
                                    assert(nf[j1] == old_frontier[j1]);
                                } else {
                                    let k = j1 - rest.len();
                                    let c = cs[k];
                                    assert(c == nf[j1]);
                                    assert(s.spec_depth() < limit);
                                    assert(c.is_child_of(s, lm[k]));
                                    assert(moves_left(lim, c.spec_depth()) == d - 1);
                                    lemma_goal_from_child(s.spec_buckets(), rules, target, d, k);
                                }
                            }
                            // What is left to explore shrinks.
                            assert(frontier_bound(old_frontier, lim as int, b) == frontier_bound(rest, lim as int, b)
                                + subtree_bound(lim - s.spec_depth(), b));
                            assert forall|k: int| 0 <= k < cs.len() implies (#[trigger] cs[k]).spec_depth()
                                == s.spec_depth() + 1 by {
                                assert(s.spec_depth() < limit);
                                assert(cs[k].is_child_of(s, lm[k]));
                            }
                            lemma_frontier_bound_append(rest, cs, lim as int, b, s.spec_depth() + 1);
                            if s.spec_depth() < lim {
                                lemma_moves_upto_len(s.spec_buckets(), rules, n as int);
                                let m = cs.len();
                                let w = subtree_bound(lim - s.spec_depth() - 1, b);
                                assert(m <= b);
                                assert(m * w <= b * w) by (nonlinear_arith)
                                    requires m <= b;
                            }
                        }
                        explored.push(to_explore);
                    }
                },
                None => {
                    return None;
                },
            }
        }
    }
}

} // verus!
