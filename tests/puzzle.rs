use water_jugs::{Bucket, BucketPuzzle, IterativeDeepeningSolver, Move, Rules};

fn levels(p: &BucketPuzzle) -> Vec<u8> {
    p.buckets().iter().map(|b| b.used_capacity()).collect()
}

fn two_buckets(a: Bucket, b: Bucket, target: u8) -> BucketPuzzle {
    BucketPuzzle::from(vec![a, b], Rules::new(true, true), target)
}

#[test]
fn rules_keep_their_flags() {
    let r = Rules::new(true, false);
    assert!(r.can_fill());
    assert!(!r.can_empty());
    let r = Rules::new(false, true);
    assert!(!r.can_fill());
    assert!(r.can_empty());
}

#[test]
fn initial_state_has_no_parent() {
    let p = two_buckets(Bucket::as_empty(0, 3).unwrap(), Bucket::as_full(1, 5).unwrap(), 4);
    assert_eq!(p.depth(), 0);
    assert!(p.parent().is_none());
    assert!(p.reason().is_none());
    assert_eq!(p.target_volume(), 4);
    assert_eq!(levels(&p), vec![0, 5]);
}

#[test]
fn goal_is_a_bucket_at_the_target() {
    let p = two_buckets(Bucket::new(0, 3, 1).unwrap(), Bucket::new(1, 5, 4).unwrap(), 4);
    assert!(p.is_goal_state());
    let p = two_buckets(Bucket::new(0, 3, 1).unwrap(), Bucket::new(1, 5, 3).unwrap(), 4);
    assert!(!p.is_goal_state());
    let p = BucketPuzzle::from(vec![], Rules::new(true, true), 0);
    assert!(!p.is_goal_state());
}

#[test]
fn expand_lists_moves_in_order() {
    let p = two_buckets(Bucket::new(0, 3, 2).unwrap(), Bucket::new(1, 5, 1).unwrap(), 4);
    let children = p.expand(1);
    let got: Vec<Vec<u8>> = children.iter().map(levels).collect();
    assert_eq!(
        got,
        vec![vec![0, 1], vec![3, 1], vec![0, 3], vec![2, 0], vec![2, 5], vec![3, 0]]
    );
    for c in &children {
        assert_eq!(c.depth(), 1);
        assert!(c.reason().is_some());
        assert_eq!(levels(c.parent().unwrap()), vec![2, 1]);
        assert_eq!(c.parent().unwrap().depth(), 0);
        assert_eq!(c.target_volume(), 4);
    }
    assert!(matches!(children[0].reason(), Some(Move::Emptied(b)) if b.id() == 0));
    assert!(matches!(children[1].reason(), Some(Move::Filled(b)) if b.id() == 0));
    match children[2].reason() {
        Some(Move::Poured { amount, from, to }) => {
            assert_eq!(amount, 2);
            assert_eq!(from.id(), 0);
            assert_eq!(to.id(), 1);
        }
        _ => panic!("expected a pour"),
    }
    match children[5].reason() {
        Some(Move::Poured { amount, from, to }) => {
            assert_eq!(amount, 1);
            assert_eq!(from.id(), 1);
            assert_eq!(to.id(), 0);
        }
        _ => panic!("expected a pour"),
    }
}

#[test]
fn expand_respects_the_rules() {
    let p = BucketPuzzle::from(
        vec![Bucket::new(0, 3, 2).unwrap(), Bucket::new(1, 5, 1).unwrap()],
        Rules::new(false, false),
        4,
    );
    let got: Vec<Vec<u8>> = p.expand(1).iter().map(levels).collect();
    assert_eq!(got, vec![vec![0, 3], vec![3, 0]]);
}

#[test]
fn expand_stops_at_the_depth_limit() {
    let p = two_buckets(Bucket::new(0, 3, 2).unwrap(), Bucket::new(1, 5, 1).unwrap(), 4);
    assert!(p.expand(0).is_empty());
    let child = &p.expand(1)[0];
    assert!(child.expand(1).is_empty());
    assert!(!child.expand(2).is_empty());
    assert!(child.expand(2).iter().all(|g| g.depth() == 2));
}

#[test]
fn pouring_conserves_volume() {
    let p = two_buckets(Bucket::new(0, 3, 1).unwrap(), Bucket::new(1, 5, 4).unwrap(), 7);
    for c in p.expand(1) {
        if let Some(Move::Poured { amount, from, .. }) = c.reason() {
            let l = levels(&c);
            assert_eq!(l[0] + l[1], 5);
            assert!(l[0] <= 3 && l[1] <= 5);
            if from.id() == 0 {
                assert_eq!(amount, 1);
                assert_eq!(l, vec![0, 5]);
            } else {
                assert_eq!(amount, 2);
                assert_eq!(l, vec![3, 2]);
            }
        }
    }
}

#[test]
fn solver_finds_four_from_an_empty_three_and_a_full_five() {
    let p = two_buckets(Bucket::as_empty(0, 3).unwrap(), Bucket::as_full(1, 5).unwrap(), 4);
    let found = IterativeDeepeningSolver::new(p, 5).solve().unwrap();
    assert!(found.is_goal_state());
    assert!(found.buckets().iter().any(|b| b.used_capacity() == 4));
    assert!(found.depth() <= 5);
}

#[test]
fn solver_needs_five_moves_for_three_and_five() {
    let p = two_buckets(Bucket::as_empty(0, 3).unwrap(), Bucket::as_full(1, 5).unwrap(), 4);
    assert!(IterativeDeepeningSolver::new(p, 4).solve().is_none());
}

#[test]
fn solver_with_zero_depth_only_checks_the_initial_state() {
    let p = two_buckets(Bucket::as_empty(0, 3).unwrap(), Bucket::as_empty(1, 5).unwrap(), 4);
    assert!(IterativeDeepeningSolver::new(p, 0).solve().is_none());
    let p = two_buckets(Bucket::as_empty(0, 3).unwrap(), Bucket::new(1, 5, 4).unwrap(), 4);
    let found = IterativeDeepeningSolver::new(p, 0).solve().unwrap();
    assert_eq!(found.depth(), 0);
}

#[test]
fn solver_reports_an_unreachable_target() {
    for limit in 0..12u8 {
        let p = BucketPuzzle::from(vec![Bucket::as_empty(0, 2).unwrap()], Rules::new(true, true), 5);
        assert!(IterativeDeepeningSolver::new(p, limit).solve().is_none());
    }
}

#[test]
fn solver_from_two_empty_buckets() {
    let p = two_buckets(Bucket::as_empty(0, 3).unwrap(), Bucket::as_empty(1, 5).unwrap(), 4);
    assert!(IterativeDeepeningSolver::new(p, 5).solve().is_none());
    let p = two_buckets(Bucket::as_empty(0, 3).unwrap(), Bucket::as_empty(1, 5).unwrap(), 4);
    let found = IterativeDeepeningSolver::new(p, 6).solve().unwrap();
    assert!(found.is_goal_state());
    let mut depth = found.depth();
    let mut state = &found;
    while let Some(parent) = state.parent() {
        assert_eq!(parent.depth() + 1, depth);
        depth = parent.depth();
        state = parent;
    }
    assert_eq!(depth, 0);
    assert_eq!(levels(state), vec![0, 0]);
}
