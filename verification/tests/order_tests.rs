use webgestalt_lib::fraction::Fraction;
use webgestalt_lib::methods::experimental::integrated_gsea;
use webgestalt_lib::methods::experimental::merge_ranks;
use webgestalt_lib::methods::gsea::check_permutations;
use webgestalt_lib::methods::gsea::RankListItem;
use webgestalt_lib::order::ascending_order;
use webgestalt_lib::order::check_permutation;
use webgestalt_lib::order::descending_order;

fn rank_list(pairs: &[(&str, i64)]) -> Vec<RankListItem> {
    pairs.iter().map(|(a, s)| RankListItem { analyte: a.to_string(), rank: *s }).collect()
}

#[test]
fn ascending_order_is_stable() {
    assert_eq!(ascending_order(&vec![3, 1, 2, 1, -7]), vec![4, 1, 3, 2, 0]);
    assert_eq!(ascending_order(&vec![]), Vec::<usize>::new());
}

#[test]
fn descending_order_is_stable() {
    assert_eq!(descending_order(&vec![3, 1, 2, 3, -7]), vec![0, 3, 2, 1, 4]);
    assert_eq!(descending_order(&vec![i64::MIN, i64::MAX, 0]), vec![1, 2, 0]);
}

#[test]
fn check_permutation_tells_permutations_apart() {
    assert!(check_permutation(&vec![1, 0, 2], 3));
    assert!(check_permutation(&vec![], 0));
    assert!(!check_permutation(&vec![1, 1, 2], 3));
    assert!(!check_permutation(&vec![1, 0, 3], 3));
    assert!(!check_permutation(&vec![1, 0], 3));
}

#[test]
fn fractions_of_counts() {
    assert_eq!(Fraction::zero(), Fraction { numerator: 0, denominator: 1 });
    assert_eq!(Fraction::one(), Fraction { numerator: 1, denominator: 1 });
    assert_eq!(Fraction::share(3, 7), Fraction { numerator: 3, denominator: 7 });
}

#[test]
fn merge_ranks_tags_and_sorts() {
    let lists = vec![rank_list(&[("a", 5), ("b", 1)]), rank_list(&[("a", 3), ("c", 5), ("d", 9)])];
    let merged = merge_ranks(&lists);
    let seen: Vec<(usize, &str, i64)> =
        merged.iter().map(|t| (t.list_index, t.analyte.as_str(), t.rank)).collect();
    assert_eq!(seen, vec![(1, "d", 9), (0, "a", 5), (1, "c", 5), (1, "a", 3), (0, "b", 1)]);
}

#[test]
fn integrated_gsea_draws_a_thousand_permutations() {
    let lists = vec![rank_list(&[("a", 5), ("b", 1)]), rank_list(&[("c", 3)])];
    let input = integrated_gsea(&lists).unwrap();
    assert_eq!(input.ranks.len(), 3);
    assert_eq!(input.ranks[0].analyte, "a");
    assert_eq!(input.permutations.len(), 1000);
    assert!(check_permutations(&input.permutations, 3));
}
