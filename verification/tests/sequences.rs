use cs220::generator::{collatz_conjecture, fib_generator};
use cs220::labyrinth::Husband;
use cs220::listops::{
    inversion, natural_join, remove_duplicate, remove_even, traverse_preorder, Node,
};
use cs220::series::{divisors, fib, find, range, Endpoint};
use cs220::stats::{
    find_count_n, interleave3, interleave_n, is_fibonacci, median, mode, position_median,
    sum_is_n, two_dimensional_sum,
};

#[test]
fn test_median() {
    assert_eq!(median(vec![1, 3, 3, 6, 7, 8, 9]), Some(6));
    assert_eq!(median(vec![1, 2, 3, 4, 5, 6, 8, 9]), Some(5));
    assert_eq!(median(vec![]), None);
    assert_eq!(median(vec![42]), Some(42));
}

#[test]
fn test_mode() {
    assert_eq!(mode(vec![1, 2, 2, 3]), Some(2));
    assert_eq!(mode(vec![3, 1]), Some(1));
    assert_eq!(mode(vec![]), None);
    assert_eq!(mode(vec![5, -1, 5, -1, -1]), Some(-1));
}

#[test]
fn test_position_median() {
    assert_eq!(position_median(vec![1, 3, 3, 6, 7, 8, 9]), Some(3));
    assert_eq!(position_median(vec![1, 3, 3, 3]), Some(1));
    assert_eq!(position_median(vec![]), None);
}

#[test]
fn test_find_count_n() {
    assert_eq!(find_count_n(vec![1, 2], 1), vec![1, 2]);
    assert_eq!(find_count_n(vec![1, 3, 3], 1), vec![1]);
    assert_eq!(find_count_n(vec![1, 3, 3], 2), vec![3]);
    assert_eq!(find_count_n(vec![1, 2, 3, 4, 4], 1), vec![1, 2, 3]);
}

#[test]
fn test_sum_is_n() {
    assert_eq!(sum_is_n(vec![vec![1, 2, 3], vec![2, 3]], 3), 1);
    assert_eq!(sum_is_n(vec![vec![1, 2, 3], vec![2, 3]], 4), 2);
    assert_eq!(sum_is_n(vec![vec![1, 2, 3], vec![2, 3]], 5), 2);
    assert_eq!(sum_is_n(vec![vec![1, 2, 3], vec![2, 3]], 6), 1);
    assert_eq!(sum_is_n(vec![vec![1, 2, 3], vec![2, 3]], 2), 0);
}

#[test]
fn test_two_dimensional_sum() {
    assert_eq!(two_dimensional_sum(vec![vec![1, 2, 3], vec![4, 5, 6]]), 21);
    assert_eq!(two_dimensional_sum(vec![vec![-4], vec![4]]), 0);
    assert_eq!(two_dimensional_sum(vec![]), 0);
}

#[test]
fn test_is_fibonacci() {
    assert!(is_fibonacci(vec![1, 1, 2, 3, 5, 8, 13]));
    assert!(!is_fibonacci(vec![1, 1, 2, 3, 5, 8, 14]));
    assert!(is_fibonacci(vec![]));
    assert!(is_fibonacci(vec![7, 9]));
}

#[test]
fn test_interleave3() {
    assert_eq!(
        interleave3(vec![1, 2], vec![3, 4], vec![5, 6]),
        vec![1, 3, 5, 2, 4, 6]
    );
}

#[test]
fn test_interleave_n() {
    assert_eq!(
        interleave_n(vec![vec![1, 2], vec![3, 4], vec![5, 6]]),
        vec![1, 3, 5, 2, 4, 6]
    );
}

#[test]
fn test_find_positions() {
    assert_eq!(find(&[1, 2], &[1, 2, 0, 1, 2]), vec![0, 3]);
    assert_eq!(find(&[1, 1], &[1, 1, 1]), vec![0, 1]);
    assert_eq!(find(&[9], &[1, 2]), vec![]);
}

#[test]
fn test_fib_iterator() {
    let mut it = fib(1, 1);
    let mut got = Vec::new();
    for _ in 0..6 {
        got.push(it.next().unwrap());
    }
    assert_eq!(got, vec![1, 1, 2, 3, 5, 8]);
}

#[test]
fn test_fib_iterator_stops_on_overflow() {
    let mut it = fib(u64::MAX - 1, 1);
    assert_eq!(it.next(), Some(u64::MAX - 1));
    assert_eq!(it.next(), None);
}

#[test]
fn test_range_upward() {
    let mut it = range(Endpoint::Inclusive(1), Endpoint::Exclusive(5), 1);
    let mut got = Vec::new();
    while let Some(v) = it.next() {
        got.push(v);
        if got.len() > 10 {
            break;
        }
    }
    assert_eq!(got, vec![1, 2, 3, 4]);
}

#[test]
fn test_range_downward() {
    let mut it = range(Endpoint::Inclusive(5), Endpoint::Inclusive(1), -2);
    let mut got = Vec::new();
    while let Some(v) = it.next() {
        got.push(v);
        if got.len() > 10 {
            break;
        }
    }
    assert_eq!(got, vec![5, 3, 1]);
}

#[test]
fn test_range_exclusive_endpoints_downward() {
    let mut it = range(Endpoint::Exclusive(5), Endpoint::Exclusive(1), -1);
    let mut got = Vec::new();
    while let Some(v) = it.next() {
        got.push(v);
        if got.len() > 10 {
            break;
        }
    }
    assert_eq!(got, vec![4, 3, 2]);
}

#[test]
fn test_divisors() {
    assert_eq!(divisors(1), vec![1]);
    assert_eq!(divisors(12), vec![1, 2, 3, 4, 6, 12]);
    assert_eq!(divisors(16), vec![1, 2, 4, 8, 16]);
    assert_eq!(divisors(97), vec![1, 97]);
}

#[test]
fn test_fib_generator() {
    let mut g = fib_generator(0, 1);
    let mut got = Vec::new();
    for _ in 0..7 {
        got.push(g.next().unwrap());
    }
    assert_eq!(got, vec![0, 1, 1, 2, 3, 5, 8]);
}

#[test]
fn test_collatz_generator() {
    let mut g = collatz_conjecture(6);
    let mut got = Vec::new();
    while let Some(v) = g.next() {
        got.push(v);
        if got.len() > 20 {
            break;
        }
    }
    assert_eq!(got, vec![6, 3, 10, 5, 16, 8, 4, 2, 1]);
    assert_eq!(g.next(), None);
}

#[test]
fn test_labyrinth_strategy() {
    let mut husband = Husband::seeking(42);
    husband.carefully_checks_whos_inside(42, 17);
    let mut strategy = husband.has_devised_a_strategy();
    assert_eq!(strategy.next(), Some(0));
    assert_eq!(strategy.next(), Some(42));
    assert_eq!(strategy.next(), Some(17));
}

#[test]
fn test_labyrinth_strategy_stops_outside_the_rooms() {
    let husband = Husband::seeking(200);
    let mut strategy = husband.has_devised_a_strategy();
    assert_eq!(strategy.next(), Some(0));
    assert_eq!(strategy.next(), None);
}

#[test]
fn test_labyrinth_strategy_stops_after_fifty_rooms() {
    let husband = Husband::seeking(0);
    let mut strategy = husband.has_devised_a_strategy();
    let mut count = 0;
    while strategy.next().is_some() {
        count += 1;
        if count > 60 {
            break;
        }
    }
    assert_eq!(count, 50);
}

#[test]
fn test_inversion() {
    assert_eq!(
        inversion(vec![3, 5, 1, 2, 4]),
        vec![(0, 2), (0, 3), (1, 2), (1, 3), (1, 4)]
    );
    assert_eq!(inversion(vec![1, 2, 3]), vec![]);
}

#[test]
fn test_traverse_preorder() {
    let tree = Node::NonLeaf((
        1,
        vec![
            Node::NonLeaf((2, vec![Node::Leaf(5), Node::Leaf(6)])),
            Node::Leaf(3),
            Node::NonLeaf((4, vec![Node::Leaf(7), Node::Leaf(8), Node::Leaf(9)])),
        ],
    ));
    assert_eq!(traverse_preorder(tree), vec![1, 2, 5, 6, 3, 4, 7, 8, 9]);
}

#[test]
fn test_remove_even() {
    let mut v = vec![1, 2, 3, 4, 5];
    remove_even(&mut v);
    assert_eq!(v, vec![1, 3, 5]);
    let mut w = vec![-2, -3];
    remove_even(&mut w);
    assert_eq!(w, vec![-3]);
}

#[test]
fn test_remove_duplicate() {
    let mut v = vec![1, 2, 1, 1, 3, 7, 5, 7];
    remove_duplicate(&mut v);
    assert_eq!(v, vec![1, 2, 3, 7, 5]);
}

#[test]
fn test_natural_join() {
    let table1 = vec![
        vec!["20230001".to_string(), "Jack".to_string()],
        vec!["20231234".to_string(), "Mike".to_string()],
    ];
    let table2 = vec![
        vec!["20230001".to_string(), "CS".to_string()],
        vec!["20230001".to_string(), "EE".to_string()],
        vec!["20231234".to_string(), "ME".to_string()],
    ];
    assert_eq!(
        natural_join(table1, table2),
        vec![
            vec!["20230001".to_string(), "Jack".to_string(), "CS".to_string()],
            vec!["20230001".to_string(), "Jack".to_string(), "EE".to_string()],
            vec!["20231234".to_string(), "Mike".to_string(), "ME".to_string()],
        ]
    );
}
