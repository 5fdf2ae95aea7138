use elite_shield_tester::combinations::{unique_selections_from_pairs, SelectionError};

fn selections(
    items: &[u64],
    pairs: &[(u64, u64)],
    n: usize,
    m: usize,
) -> Vec<Vec<usize>> {
    unique_selections_from_pairs(&items.to_vec(), &pairs.to_vec(), n, m).unwrap()
}

#[test]
fn zero_length_emits_once() {
    let out = selections(&[5], &[], 0, 0);
    assert_eq!(out, vec![Vec::<usize>::new()]);
}

#[test]
fn zero_length_ignores_pool_and_pairs() {
    // Even an oversized pool and unknown pair items do not matter at n = 0.
    let big: Vec<u64> = (0..40).collect();
    let out = unique_selections_from_pairs(&big, &vec![(100, 200)], 0, 3).unwrap();
    assert_eq!(out, vec![Vec::<usize>::new()]);
}

#[test]
fn two_from_three_with_chain_pairs() {
    // pool [A,B,C], pairs (A,B) and (B,C): only those two combinations.
    let out = selections(&[10, 20, 30], &[(10, 20), (20, 30)], 2, 0);
    assert_eq!(out, vec![vec![0, 1], vec![1, 2]]);
}

#[test]
fn chain_pairs_never_emit_unpaired_combination() {
    let out = selections(&[10, 20, 30], &[(10, 20), (20, 30)], 2, 0);
    assert!(!out.contains(&vec![0, 2]));
    assert!(!out.contains(&vec![0, 0]));
}

#[test]
fn self_pair_allows_repetition() {
    let out = selections(&[1, 2], &[(1, 1)], 2, 0);
    assert_eq!(out, vec![vec![0, 0]]);
}

#[test]
fn repetition_cap_makes_target_unreachable() {
    // pool [X], pairs [(X,X)], n = 3, m = 2: no qualifying combination.
    let out = selections(&[7], &[(7, 7)], 3, 2);
    assert_eq!(out, Vec::<Vec<usize>>::new());
}

#[test]
fn no_pairs_no_combinations_of_two() {
    let out = selections(&[1, 2, 3], &[], 2, 0);
    assert_eq!(out, Vec::<Vec<usize>>::new());
}

#[test]
fn singletons_need_no_pair() {
    // A single chosen item forms no pair, so every item qualifies at n = 1.
    let out = selections(&[4, 5, 6], &[], 1, 0);
    assert_eq!(out, vec![vec![0], vec![1], vec![2]]);
}

#[test]
fn cap_larger_than_length_is_normalized() {
    let out = selections(&[1], &[(1, 1)], 2, 5);
    assert_eq!(out, vec![vec![0, 0]]);
}

#[test]
fn duplicate_pool_entries_resolve_to_first_index() {
    let out = selections(&[5, 5], &[(5, 5)], 2, 0);
    assert_eq!(out, vec![vec![0, 0]]);
}

#[test]
fn emissions_are_canonical_and_within_cap() {
    let items: Vec<u64> = vec![1, 2, 3, 4];
    let pairs: Vec<(u64, u64)> = vec![(1, 2), (2, 3), (1, 3), (2, 2), (3, 4)];
    let n = 3;
    let m = 2;
    let out = unique_selections_from_pairs(&items, &pairs, n, m).unwrap();
    assert!(!out.is_empty());
    for sel in &out {
        assert_eq!(sel.len(), n);
        for w in sel.windows(2) {
            assert!(w[0] <= w[1]);
        }
        for &x in sel {
            assert!(sel.iter().filter(|&&y| y == x).count() <= m);
        }
        for i in 0..sel.len() {
            for j in (i + 1)..sel.len() {
                let a = items[sel[i]];
                let b = items[sel[j]];
                assert!(
                    pairs.iter().any(|&(p, q)| (p == a && q == b) || (p == b && q == a)),
                    "unbacked pair in {:?}",
                    sel
                );
            }
        }
    }
    // no multiset is reported twice
    for i in 0..out.len() {
        for j in (i + 1)..out.len() {
            assert_ne!(out[i], out[j]);
        }
    }
}

#[test]
fn oversized_pool_is_rejected() {
    let big: Vec<u64> = (0..33).collect();
    let r = unique_selections_from_pairs(&big, &vec![], 1, 0);
    assert_eq!(r, Err(SelectionError::PoolTooLarge));
}

#[test]
fn unknown_pair_item_is_rejected() {
    let r = unique_selections_from_pairs(&vec![1, 2], &vec![(1, 9)], 2, 0);
    assert_eq!(r, Err(SelectionError::UnknownPairItem));
}
