use stack_sort_search::ops::{operations_in_efficiency_order, Operation};
use stack_sort_search::search::get_all_cases;
use stack_sort_search::solve::{get_solution, invert_path};
use stack_sort_search::state::{fingerprint, state_key, State, KEY_SEPARATOR};
use std::collections::{HashMap, VecDeque};

const ALL: [Operation; 11] = [
    Operation::PA,
    Operation::PB,
    Operation::SA,
    Operation::SB,
    Operation::SS,
    Operation::RA,
    Operation::RB,
    Operation::RR,
    Operation::RRA,
    Operation::RRB,
    Operation::RRR,
];

fn sorted_left_right_empty(l: &Vec<u32>, r: &Vec<u32>) -> bool {
    l.len() == 3 && l.windows(2).all(|w| w[0] < w[1]) && r.is_empty()
}

/// Distances from the start by a plain breadth-first search over all moves.
fn brute_distances(left: Vec<u32>, right: Vec<u32>) -> HashMap<(Vec<u32>, Vec<u32>), usize> {
    let mut dist = HashMap::new();
    let mut queue = VecDeque::new();
    dist.insert((left.clone(), right.clone()), 0usize);
    queue.push_back(State::new(left, right));
    while let Some(s) = queue.pop_front() {
        let d = dist[&(s.left.clone(), s.right.clone())];
        for op in ALL {
            if let Some(n) = s.try_apply(op) {
                let key = (n.left.clone(), n.right.clone());
                if !dist.contains_key(&key) {
                    dist.insert(key, d + 1);
                    queue.push_back(State::new(n.left, n.right));
                }
            }
        }
    }
    dist
}

#[test]
fn start_already_at_goal() {
    let (max, sols) = get_solution(vec![1, 2, 3], vec![], sorted_left_right_empty);
    assert_eq!(max, 0);
    assert_eq!(sols.len(), 1);
    assert_eq!(sols[0].0, vec![1, 2, 3]);
    assert!(sols[0].1.is_empty());
}

#[test]
fn reversed_start_two_moves() {
    let (max, sols) = get_solution(vec![3, 2, 1], vec![], sorted_left_right_empty);
    assert_eq!(max, 2);
    assert_eq!(sols.len(), 1);
    assert_eq!(sols[0].0, vec![1, 2, 3]);
    assert_eq!(sols[0].1, vec![Operation::SA, Operation::RRA]);
    // the solution takes the arrangement back to the start of the search
    let mut s = State::new(vec![1, 2, 3], vec![]);
    for op in &sols[0].1 {
        s = s.try_apply(*op).expect("meaningful move");
    }
    assert_eq!(s.left, vec![3, 2, 1]);
    assert!(s.right.is_empty());
}

#[test]
fn goal_never_true() {
    let (max, sols) = get_solution(vec![1, 2, 3], vec![], |_: &Vec<u32>, _: &Vec<u32>| false);
    assert_eq!(max, 0);
    assert!(sols.is_empty());
}

#[test]
fn every_move_is_undone_by_its_inverse() {
    let samples = vec![
        (vec![1, 2, 3], vec![4, 5]),
        (vec![0, 1, 2], vec![3, 0]),
        (vec![2, 1], vec![]),
        (vec![], vec![1, 2, 3]),
        (vec![5], vec![6]),
    ];
    let mut applied = 0;
    for (l, r) in samples {
        let s = State::new(l.clone(), r.clone());
        for op in ALL {
            if let Some(n) = s.try_apply(op) {
                applied += 1;
                let back = n.try_apply(op.reverse()).expect("inverse is meaningful");
                assert_eq!(back.left, l);
                assert_eq!(back.right, r);
                assert_eq!(back.operations, vec![op, op.reverse()]);
            }
        }
    }
    assert!(applied > 20);
}

#[test]
fn inverse_table() {
    assert_eq!(Operation::PA.reverse(), Operation::PB);
    assert_eq!(Operation::PB.reverse(), Operation::PA);
    assert_eq!(Operation::SS.reverse(), Operation::SS);
    assert_eq!(Operation::RA.reverse(), Operation::RRA);
    assert_eq!(Operation::RRR.reverse(), Operation::RR);
    for op in ALL {
        assert_eq!(op.reverse().reverse(), op);
    }
}

#[test]
fn meaningfulness_ignores_placeholders() {
    assert!(!Operation::PB.is_meaningful(&vec![0, 1], &vec![]));
    assert!(Operation::PB.is_meaningful(&vec![1, 0], &vec![]));
    assert!(!Operation::SA.is_meaningful(&vec![1, 0], &vec![]));
    assert!(!Operation::RA.is_meaningful(&vec![1], &vec![]));
    assert!(!Operation::RRA.is_meaningful(&vec![1, 0], &vec![]));
    assert!(Operation::RRA.is_meaningful(&vec![0, 1], &vec![]));
    assert!(!Operation::RRR.is_meaningful(&vec![0, 1], &vec![2]));
    assert!(!Operation::PA.is_meaningful(&vec![1], &vec![]));
}

#[test]
fn moves_change_the_stacks() {
    let s = State::new(vec![1, 2, 3], vec![4, 5]);
    let pa = s.apply(Operation::PA);
    assert_eq!((pa.left, pa.right), (vec![4, 1, 2, 3], vec![5]));
    let ss = s.apply(Operation::SS);
    assert_eq!((ss.left, ss.right), (vec![2, 1, 3], vec![5, 4]));
    let rr = s.apply(Operation::RR);
    assert_eq!((rr.left, rr.right), (vec![2, 3, 1], vec![5, 4]));
    let rra = s.apply(Operation::RRA);
    assert_eq!((rra.left, rra.right), (vec![3, 1, 2], vec![4, 5]));
    assert_eq!(rra.operations, vec![Operation::RRA]);
    assert!(s.try_apply(Operation::SB).is_some());
    assert!(State::new(vec![1], vec![]).try_apply(Operation::SA).is_none());
}

#[test]
fn efficiency_order_and_names() {
    let order = operations_in_efficiency_order();
    assert_eq!(order.len(), 11);
    assert_eq!(order[0], Operation::RA);
    assert_eq!(order[8], Operation::SS);
    assert_eq!(order[10], Operation::PB);
    assert_eq!(Operation::RRB.name(), "rrb");
    assert_eq!(Operation::PA.name(), "pa");
}

#[test]
fn canonical_key_and_fingerprint() {
    let key = state_key(&State::new(vec![1, 2], vec![3]));
    assert_eq!(key, vec![1, 2, KEY_SEPARATOR, 3]);
    let other = state_key(&State::new(vec![1], vec![2, 3]));
    assert_ne!(key, other);
    assert_eq!(fingerprint(&vec![]), 0);
    assert_eq!(fingerprint(&vec![1]), 1);
    assert_eq!(fingerprint(&vec![1, 2]), 33);
}

#[test]
fn invert_path_reverses_and_inverts() {
    let ops = vec![Operation::RA, Operation::PB, Operation::SS];
    assert_eq!(invert_path(&ops), vec![Operation::SS, Operation::PA, Operation::RRA]);
    assert!(invert_path(&vec![]).is_empty());
}

#[test]
fn search_matches_brute_force_distances() {
    for (l, r) in [(vec![1, 2, 3], vec![]), (vec![1, 2, 0], vec![0]), (vec![0], vec![1, 2, 3])] {
        let search = get_all_cases(l.clone(), r.clone());
        let brute = brute_distances(l, r);
        assert_eq!(search.states.len(), brute.len());
        let mut max = 0;
        for s in &search.states {
            let d = brute[&(s.left.clone(), s.right.clone())];
            assert_eq!(s.operations.len(), d);
            max = max.max(d);
        }
        assert_eq!(search.max_distance, max);
    }
}

#[test]
fn search_layers_are_ordered_and_distinct() {
    let search = get_all_cases(vec![1, 2, 3], vec![]);
    assert_eq!(search.states[0].left, vec![1, 2, 3]);
    assert!(search.states[0].operations.is_empty());
    let mut seen = std::collections::HashSet::new();
    for w in search.states.windows(2) {
        assert!(w[0].operations.len() <= w[1].operations.len());
    }
    for s in &search.states {
        assert!(seen.insert((s.left.clone(), s.right.clone())));
    }
}

#[test]
fn search_is_deterministic() {
    let a = get_all_cases(vec![1, 2, 0], vec![0]);
    let b = get_all_cases(vec![1, 2, 0], vec![0]);
    assert_eq!(a.max_distance, b.max_distance);
    assert_eq!(a.states.len(), b.states.len());
    for (x, y) in a.states.iter().zip(b.states.iter()) {
        assert_eq!(x.left, y.left);
        assert_eq!(x.right, y.right);
        assert_eq!(x.operations, y.operations);
    }
}

#[test]
fn single_element_search() {
    let search = get_all_cases(vec![7], vec![]);
    assert_eq!(search.states.len(), 2);
    assert_eq!(search.max_distance, 1);
    assert_eq!(search.states[1].right, vec![7]);
    assert_eq!(search.states[1].operations, vec![Operation::PB]);
}

#[test]
fn empty_stacks_search() {
    let search = get_all_cases(vec![], vec![]);
    assert_eq!(search.states.len(), 1);
    assert_eq!(search.max_distance, 0);
}

#[test]
fn solutions_sorted_and_complete() {
    // every arrangement of the three labels on the left, right stack empty
    let (max, sols) = get_solution(vec![1, 2, 3], vec![], |l: &Vec<u32>, _: &Vec<u32>| l.len() == 3);
    assert_eq!(sols.len(), 6);
    for w in sols.windows(2) {
        assert!(w[0].0 < w[1].0);
    }
    assert_eq!(max, sols.iter().map(|s| s.1.len()).max().unwrap());
    let brute = brute_distances(vec![1, 2, 3], vec![]);
    for (arr, ops) in &sols {
        assert_eq!(ops.len(), brute[&(arr.clone(), vec![])]);
        let mut s = State::new(arr.clone(), vec![]);
        for op in ops {
            s = s.try_apply(*op).expect("meaningful move");
        }
        assert_eq!(s.left, vec![1, 2, 3]);
        assert!(s.right.is_empty());
    }
}

#[test]
fn solutions_with_placeholders() {
    // labels with a trailing placeholder on the left and one on the right
    let (max, sols) = get_solution(vec![1, 2, 0], vec![0], |l: &Vec<u32>, _: &Vec<u32>| {
        l.len() == 3 && l[2] == 0
    });
    assert!(!sols.is_empty());
    assert!(sols.iter().any(|s| s.0 == vec![1, 2, 0] && s.1.is_empty()));
    for w in sols.windows(2) {
        assert!(w[0].0 < w[1].0 || (w[0].0 == w[1].0 && w[0].1.len() <= w[1].1.len()));
    }
    assert!(sols.iter().all(|s| s.1.len() <= max));
}

#[test]
fn goal_ignoring_right_stack_repeats_arrangement() {
    // both orders of the right stack keep the same left stack
    let (max, sols) = get_solution(vec![1], vec![2, 3], |l: &Vec<u32>, _: &Vec<u32>| l == &vec![1]);
    assert_eq!(max, 1);
    assert_eq!(sols.len(), 2);
    assert_eq!(sols[0].0, vec![1]);
    assert_eq!(sols[1].0, vec![1]);
    assert!(sols[0].1.is_empty());
    assert_eq!(sols[1].1, vec![Operation::RRB]);
}
