use coollex::linked_list::{Algorithm, CoollexLinkedList, SelInd};

/// All combinations of `k` out of `n`, each as the list of its positions.
fn collect(n: usize, k: usize) -> Vec<Vec<usize>> {
    let mut all: Vec<Vec<usize>> = Vec::new();
    let mut combs = CoollexLinkedList::combinations(n, k);
    while let Some(mut comb) = combs.next() {
        all.push(drain(&mut comb));
    }
    all
}

fn drain(comb: &mut SelInd<'_>) -> Vec<usize> {
    let mut positions: Vec<usize> = Vec::new();
    while let Some(i) = comb.next() {
        positions.push(i);
    }
    positions
}

/// All strings that the generator visits, as text.
fn strings(s: usize, t: usize) -> Vec<String> {
    let mut all: Vec<String> = Vec::new();
    let mut alg = Algorithm::new(s, t);
    loop {
        all.push(alg.bit_string());
        if !alg.has_more() {
            break;
        }
        alg.next_combination();
    }
    all
}

fn binomial(n: u64, k: u64) -> u64 {
    if k > n {
        return 0;
    }
    let mut r: u64 = 1;
    let mut i: u64 = 0;
    while i < k {
        r = r * (n - i) / (i + 1);
        i += 1;
    }
    r
}

/// The number of positions that are in one of the two lists and not in the
/// other.
fn changed(a: &[usize], b: &[usize]) -> usize {
    let left = a.iter().filter(|p| !b.contains(p)).count();
    let right = b.iter().filter(|p| !a.contains(p)).count();
    left + right
}

#[test]
fn initial_rendering() {
    assert_eq!(Algorithm::new(3, 2).bit_string(), "11000");
}

#[test]
fn rendering_has_one_character_per_marker() {
    assert_eq!(Algorithm::new(0, 1).bit_string(), "1");
    assert_eq!(Algorithm::new(0, 4).bit_string(), "1111");
    assert_eq!(Algorithm::new(4, 1).bit_string(), "10000");
}

#[test]
fn five_choose_two() {
    let all = collect(5, 2);
    assert_eq!(all.len(), 10);
    for comb in &all {
        assert_eq!(comb.len(), 2);
    }
    assert_eq!(all[0], vec![0, 1]);
}

#[test]
fn nine_choose_nine() {
    let all = collect(9, 9);
    assert_eq!(all, vec![vec![0, 1, 2, 3, 4, 5, 6, 7, 8]]);
}

#[test]
fn choosing_none_gives_nothing() {
    for n in [0usize, 1, 2, 5, 17] {
        let mut combs = CoollexLinkedList::combinations(n, 0);
        assert!(combs.next().is_none());
        assert!(combs.next().is_none());
    }
}

#[test]
fn three_choose_two() {
    let all = collect(3, 2);
    assert_eq!(all, vec![vec![0, 1], vec![1, 2], vec![0, 2]]);
    for p in 0..3usize {
        let with_p = all.iter().filter(|comb| comb.contains(&p)).count();
        assert_eq!(with_p, 2);
    }
}

#[test]
fn four_choose_one() {
    let all = collect(4, 1);
    assert_eq!(all, vec![vec![0], vec![1], vec![2], vec![3]]);
}

#[test]
fn one_choose_one() {
    assert_eq!(collect(1, 1), vec![vec![0]]);
}

#[test]
fn order_of_four_choose_two() {
    assert_eq!(strings(2, 2), vec!["1100", "0110", "1010", "0101", "0011", "1001"]);
    assert_eq!(
        collect(4, 2),
        vec![vec![0, 1], vec![1, 2], vec![0, 2], vec![1, 3], vec![2, 3], vec![0, 3]]
    );
}

#[test]
fn order_of_five_choose_two() {
    assert_eq!(
        strings(3, 2),
        vec![
            "11000", "01100", "10100", "01010", "00110", "10010", "01001", "00101", "00011",
            "10001"
        ]
    );
}

#[test]
fn step_moves_the_marker_behind_the_pivot() {
    let mut alg = Algorithm::new(2, 3);
    assert_eq!(alg.bit_string(), "11100");
    assert!(alg.has_more());
    alg.next_combination();
    assert_eq!(alg.bit_string(), "01110");
    alg.next_combination();
    assert_eq!(alg.bit_string(), "10110");
    alg.next_combination();
    assert_eq!(alg.bit_string(), "11010");
    alg.next_combination();
    assert_eq!(alg.bit_string(), "01101");
}

#[test]
fn last_string_has_no_successor() {
    let mut alg = Algorithm::new(2, 2);
    let mut steps: usize = 0;
    while alg.has_more() {
        alg.next_combination();
        steps += 1;
    }
    assert_eq!(steps, 5);
    assert_eq!(alg.bit_string(), "1001");
    assert!(!alg.has_more());
    assert!(!Algorithm::new(0, 3).has_more());
}

#[test]
fn direct_use_visits_every_combination() {
    for n in 1..=9usize {
        for k in 1..=n {
            let all = strings(n - k, k);
            assert_eq!(all.len() as u64, binomial(n as u64, k as u64));
            for text in &all {
                assert_eq!(text.len(), n);
                assert_eq!(text.chars().filter(|c| *c == '1').count(), k);
            }
        }
    }
}

#[test]
fn cardinality() {
    for n in 0..=10usize {
        assert_eq!(collect(n, 0).len(), 0);
        for k in 1..=n {
            assert_eq!(collect(n, k).len() as u64, binomial(n as u64, k as u64));
        }
    }
    assert_eq!(collect(6, 3).len(), 20);
    assert_eq!(collect(10, 4).len(), 210);
}

#[test]
fn fixed_size() {
    for comb in collect(8, 3) {
        assert_eq!(comb.len(), 3);
    }
}

#[test]
fn uniform_coverage() {
    let all = collect(6, 3);
    for p in 0..6usize {
        let with_p = all.iter().filter(|comb| comb.contains(&p)).count();
        assert_eq!(with_p, 10);
    }
    for n in 1..=9usize {
        for k in 1..=n {
            let all = collect(n, k);
            for p in 0..n {
                let with_p = all.iter().filter(|comb| comb.contains(&p)).count();
                assert_eq!(with_p as u64, binomial((n - 1) as u64, (k - 1) as u64));
            }
        }
    }
}

#[test]
fn positions_ascend_within_range() {
    for comb in collect(7, 3) {
        for pair in comb.windows(2) {
            assert!(pair[0] < pair[1]);
        }
        for p in comb {
            assert!(p < 7);
        }
    }
}

#[test]
fn no_combination_twice() {
    let all = collect(7, 4);
    assert_eq!(all.len(), 35);
    for i in 0..all.len() {
        for j in (i + 1)..all.len() {
            assert_ne!(all[i], all[j]);
        }
    }
}

#[test]
fn every_subset_is_generated() {
    let all = collect(5, 3);
    for a in 0..5usize {
        for b in (a + 1)..5 {
            for c in (b + 1)..5 {
                assert!(all.contains(&vec![a, b, c]));
            }
        }
    }
}

#[test]
fn change_between_neighbours() {
    let all = collect(5, 2);
    let sizes: Vec<usize> = all.windows(2).map(|pair| changed(&pair[0], &pair[1])).collect();
    assert_eq!(sizes, vec![2, 2, 4, 2, 2, 4, 2, 2, 2]);
}

#[test]
fn change_is_two_or_four_positions() {
    for n in 1..=9usize {
        for k in 1..=n {
            let all = collect(n, k);
            for pair in all.windows(2) {
                let size = changed(&pair[0], &pair[1]);
                assert!(size == 2 || size == 4);
            }
        }
    }
}

#[test]
fn change_of_one_position_for_single_marker() {
    let all = collect(6, 1);
    for pair in all.windows(2) {
        assert_eq!(changed(&pair[0], &pair[1]), 2);
    }
}

#[test]
fn exhausted_run_stays_exhausted() {
    let mut combs = CoollexLinkedList::combinations(4, 2);
    let mut count: usize = 0;
    while let Some(mut comb) = combs.next() {
        assert_eq!(drain(&mut comb).len(), 2);
        count += 1;
    }
    assert_eq!(count, 6);
    assert!(combs.next().is_none());
    assert!(combs.next().is_none());
}

#[test]
fn exhausted_view_stays_exhausted() {
    let mut combs = CoollexLinkedList::combinations(3, 1);
    let mut comb = combs.next().unwrap();
    assert_eq!(comb.next(), Some(0));
    assert_eq!(comb.next(), None);
    assert_eq!(comb.next(), None);
}

#[test]
fn view_can_be_left_unread() {
    let mut combs = CoollexLinkedList::combinations(4, 2);
    let mut first = combs.next().unwrap();
    assert_eq!(first.next(), Some(0));
    let mut second = combs.next().unwrap();
    assert_eq!(drain(&mut second), vec![1, 2]);
    let mut count: usize = 2;
    while combs.next().is_some() {
        count += 1;
    }
    assert_eq!(count, 6);
}
