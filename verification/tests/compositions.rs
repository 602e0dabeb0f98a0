use asf::algorithm::compositions::do_for_each_distribution;
use std::cell::RefCell;

fn all_compositions(n: u32, k: usize) -> Vec<Vec<u32>> {
    let seen = RefCell::new(Vec::new());
    let r: Option<()> = do_for_each_distribution(n, k, |c: &[u32]| {
        seen.borrow_mut().push(c.to_vec());
        None
    });
    assert!(r.is_none());
    seen.into_inner()
}

fn binomial(a: u64, b: u64) -> u64 {
    if b == 0 {
        1
    } else if a == 0 {
        0
    } else {
        binomial(a - 1, b - 1) + binomial(a - 1, b)
    }
}

#[test]
fn visits_six_compositions_of_two_into_three() {
    assert_eq!(
        all_compositions(2, 3),
        vec![
            vec![2, 0, 0],
            vec![1, 1, 0],
            vec![1, 0, 1],
            vec![0, 2, 0],
            vec![0, 1, 1],
            vec![0, 0, 2]
        ]
    );
}

#[test]
fn visits_as_many_compositions_as_the_binomial_says() {
    for n in 0..7u32 {
        for k in 1..6usize {
            let seen = all_compositions(n, k);
            assert_eq!(seen.len() as u64, binomial(n as u64 + k as u64 - 1, k as u64 - 1));
            for c in &seen {
                assert_eq!(c.len(), k);
                assert_eq!(c.iter().sum::<u32>(), n);
            }
            for i in 0..seen.len() {
                for j in 0..i {
                    assert_ne!(seen[i], seen[j]);
                }
            }
        }
    }
}

#[test]
fn compositions_come_in_descending_order() {
    let seen = all_compositions(4, 3);
    for pair in seen.windows(2) {
        assert!(pair[0] > pair[1]);
    }
}

#[test]
fn nothing_to_distribute_is_one_composition() {
    assert_eq!(all_compositions(0, 1), vec![vec![0]]);
    assert_eq!(all_compositions(0, 4), vec![vec![0, 0, 0, 0]]);
}

#[test]
fn one_basket_takes_everything() {
    assert_eq!(all_compositions(9, 1), vec![vec![9]]);
}

#[test]
fn stops_at_the_first_result() {
    let calls = RefCell::new(0);
    let r = do_for_each_distribution(3, 3, |c: &[u32]| {
        *calls.borrow_mut() += 1;
        if c[1] == 2 {
            Some(c.to_vec())
        } else {
            None
        }
    });
    assert_eq!(r, Some(vec![1, 2, 0]));
    // [3,0,0] [2,1,0] [2,0,1] [1,2,0]
    assert_eq!(calls.into_inner(), 4);
}

#[test]
fn gives_the_result_of_the_first_call() {
    let r = do_for_each_distribution(5, 2, |c: &[u32]| Some(c[0]));
    assert_eq!(r, Some(5));
}
