use battle_calc::permuter::{attacker_permuatations, AttackerPermuter};

fn all_of(mut permuter: AttackerPermuter) -> Vec<Vec<usize>> {
    let mut found = vec![];
    while let Some(order) = permuter.next() {
        found.push(order);
        assert!(found.len() <= 50_000);
    }
    assert_eq!(permuter.next(), None);
    assert_eq!(permuter.next(), None);
    found
}

fn factorial(n: usize) -> usize {
    (1..=n).product()
}

fn differences(a: &[usize], b: &[usize]) -> usize {
    a.iter().zip(b.iter()).filter(|(x, y)| x != y).count()
}

#[test]
fn permuter_of_nothing_is_empty() {
    let mut permuter = attacker_permuatations(0);
    assert_eq!(permuter.next(), None);
    assert_eq!(permuter.next(), None);
}

#[test]
fn permuter_of_one() {
    assert_eq!(all_of(attacker_permuatations(1)), vec![vec![0]]);
}

#[test]
fn permuter_of_two() {
    assert_eq!(all_of(attacker_permuatations(2)), vec![vec![0, 1], vec![1, 0]]);
}

#[test]
fn permuter_of_three_in_order() {
    assert_eq!(
        all_of(attacker_permuatations(3)),
        vec![
            vec![0, 1, 2],
            vec![1, 0, 2],
            vec![2, 0, 1],
            vec![0, 2, 1],
            vec![1, 2, 0],
            vec![2, 1, 0],
        ]
    );
}

#[test]
fn permuter_of_four_in_order() {
    let expected: Vec<Vec<usize>> = vec![
        vec![0, 1, 2, 3],
        vec![1, 0, 2, 3],
        vec![2, 0, 1, 3],
        vec![0, 2, 1, 3],
        vec![1, 2, 0, 3],
        vec![2, 1, 0, 3],
        vec![2, 1, 3, 0],
        vec![1, 2, 3, 0],
        vec![3, 2, 1, 0],
        vec![2, 3, 1, 0],
        vec![1, 3, 2, 0],
        vec![3, 1, 2, 0],
        vec![3, 0, 2, 1],
        vec![0, 3, 2, 1],
        vec![2, 3, 0, 1],
        vec![3, 2, 0, 1],
        vec![0, 2, 3, 1],
        vec![2, 0, 3, 1],
        vec![1, 0, 3, 2],
        vec![0, 1, 3, 2],
        vec![3, 1, 0, 2],
        vec![1, 3, 0, 2],
        vec![0, 3, 1, 2],
        vec![3, 0, 1, 2],
    ];
    assert_eq!(all_of(attacker_permuatations(4)), expected);
}

#[test]
fn permuter_hands_out_every_ordering_once() {
    for n in 1..=7usize {
        let found = all_of(attacker_permuatations(n));
        assert_eq!(found.len(), factorial(n));
        for order in &found {
            let mut sorted = order.clone();
            sorted.sort();
            assert_eq!(sorted, (0..n).collect::<Vec<usize>>());
        }
        let mut distinct = found.clone();
        distinct.sort();
        distinct.dedup();
        assert_eq!(distinct.len(), found.len());
    }
}

#[test]
fn permuter_changes_two_positions_at_a_time() {
    for n in 2..=6usize {
        let found = all_of(attacker_permuatations(n));
        assert_eq!(found[0], (0..n).collect::<Vec<usize>>());
        for pair in found.windows(2) {
            assert_eq!(differences(&pair[0], &pair[1]), 2);
        }
    }
}
