use webgestalt_lib::fraction::Fraction;
use webgestalt_lib::methods::gsea::analyte_set_p;
use webgestalt_lib::methods::gsea::check_permutations;
use webgestalt_lib::methods::gsea::enrichment_score;
use webgestalt_lib::methods::gsea::gsea;
use webgestalt_lib::methods::gsea::make_permutations;
use webgestalt_lib::methods::gsea::permutation_p;
use webgestalt_lib::methods::gsea::permutations_from;
use webgestalt_lib::methods::gsea::pooled_fdr;
use webgestalt_lib::methods::gsea::prepare;
use webgestalt_lib::methods::gsea::filter_set;
use webgestalt_lib::methods::gsea::unscored;
use webgestalt_lib::methods::gsea::SetScoring;
use webgestalt_lib::methods::gsea::set_hits;
use webgestalt_lib::methods::gsea::split_by_side;
use webgestalt_lib::methods::gsea::sort_rank_list;
use webgestalt_lib::methods::gsea::tail_count;
use webgestalt_lib::methods::gsea::GSEAConfig;
use webgestalt_lib::methods::gsea::PartialGSEAResult;
use webgestalt_lib::methods::gsea::RankListItem;
use webgestalt_lib::methods::gsea::TailCount;
use webgestalt_lib::readers::read_gmt_file;
use webgestalt_lib::readers::utils::Item;
use webgestalt_lib::ConfigurationError;
use webgestalt_lib::StatisticsError;
use webgestalt_lib::WebGestaltError;

fn key(x: f64) -> i64 {
    let b = x.to_bits() as i64;
    if b >= 0 {
        b
    } else {
        i64::MIN.wrapping_sub(b)
    }
}

fn value(k: i64) -> f64 {
    if k >= 0 {
        f64::from_bits(k as u64)
    } else {
        -f64::from_bits((-k) as u64)
    }
}

fn names(list: &[&str]) -> Vec<String> {
    list.iter().map(|s| s.to_string()).collect()
}

fn item(id: &str, parts: &[&str]) -> Item {
    Item { id: id.to_string(), url: String::new(), parts: names(parts) }
}

fn rank_list(pairs: &[(&str, f64)]) -> Vec<RankListItem> {
    pairs.iter().map(|(a, s)| RankListItem { analyte: a.to_string(), rank: key(*s) }).collect()
}

/// The running sum of a walk over the hits in the order `order`, with the
/// weights by place.
fn walk(mask: &[bool], weights: &[f64], order: &[usize]) -> Vec<f64> {
    let n = mask.len();
    let k = mask.iter().filter(|h| **h).count();
    let mut n_r = 0.0;
    for i in 0..n {
        if mask[order[i]] {
            n_r += weights[i];
        }
    }
    let mut hit = 0.0;
    let mut miss = 0.0;
    let mut sums = Vec::new();
    for i in 0..n {
        if mask[order[i]] {
            hit += weights[i];
        } else {
            miss += 1.0;
        }
        sums.push(hit / n_r - miss / ((n - k) as f64));
    }
    sums
}

fn keys(values: &[f64]) -> Vec<i64> {
    values.iter().map(|v| key(*v)).collect()
}

/// Scores one set the way a caller does: the sums in real numbers, the
/// rest by the library.
fn score_set(
    analytes: &Vec<String>,
    ranks: &Vec<i64>,
    set: &Item,
    table: &Vec<Vec<usize>>,
) -> PartialGSEAResult {
    let hits = set_hits(analytes, set);
    let weights: Vec<f64> = ranks.iter().map(|k| value(*k).abs()).collect();
    let identity: Vec<usize> = (0..analytes.len()).collect();
    let running = keys(&walk(&hits.mask, &weights, &identity));
    let mut es_iter: Vec<f64> = Vec::new();
    for order in table {
        let sums = keys(&walk(&hits.mask, &weights, order));
        es_iter.push(value(enrichment_score(&hits.mask, &sums, order).score));
    }
    let real = value(enrichment_score(&hits.mask, &running, &identity).score);
    let sides = split_by_side(&keys(&es_iter));
    let up: Vec<f64> = sides.up.iter().map(|k| value(*k)).collect();
    let down: Vec<f64> = sides.down.iter().map(|k| value(*k)).collect();
    let up_avg = if up.is_empty() { 1.0 } else { up.iter().sum::<f64>() / up.len() as f64 };
    let down_avg = if down.is_empty() { -1.0 } else { down.iter().sum::<f64>() / down.len() as f64 };
    let mut nes_iter: Vec<f64> = up.iter().map(|x| x / up_avg).collect();
    nes_iter.extend(down.iter().map(|x| -x / down_avg));
    let nes = if real >= 0.0 { real / up_avg } else { -real / down_avg };
    analyte_set_p(set, &hits.mask, running, &keys(&es_iter), key(nes), keys(&nes_iter)).unwrap()
}

fn scored(scoring: SetScoring) -> Option<webgestalt_lib::methods::gsea::SetHits> {
    match scoring {
        SetScoring::Scored(hits) => Some(hits),
        SetScoring::Unscored(_) => None,
    }
}

fn gcd(a: usize, b: usize) -> usize {
    if b == 0 {
        a
    } else {
        gcd(b, a % b)
    }
}

/// Permutations of the positions below `n`: a step that shares no factor
/// with `n`, and a shift.
fn rotations(rows: usize, n: usize) -> Vec<Vec<usize>> {
    let steps: Vec<usize> = (1..n).filter(|s| gcd(*s, n) == 1).collect();
    (0..rows)
        .map(|r| (0..n).map(|i| (i * steps[(r * 7) % steps.len()] + r) % n).collect())
        .collect()
}

#[test]
fn read_gmt() {
    let mut text = String::new();
    for i in 0..330 {
        text.push_str(&format!("SET{}\thttp://example.org/{}\tA{}\tB{}\tC\n", i, i, i, i));
    }
    let gmt = read_gmt_file(&"data/ktest.gmt".to_string(), text.as_bytes()).unwrap();
    assert_eq!(gmt.len(), 330)
}

#[test]
fn read_gmt_keeps_ragged_rows_and_empty_last_column() {
    let text = "S1\tu1\ta\tb\tc\nS2\t\tx\nS3\tu3\nS4\tu4\ty\t\n";
    let gmt = read_gmt_file(&"mem".to_string(), text.as_bytes()).unwrap();
    assert_eq!(gmt.len(), 4);
    assert_eq!(gmt[0].id, "S1");
    assert_eq!(gmt[0].url, "u1");
    assert_eq!(gmt[0].parts, names(&["a", "b", "c"]));
    assert_eq!(gmt[1].url, "");
    assert_eq!(gmt[1].parts, names(&["x"]));
    assert_eq!(gmt[2].parts.len(), 0);
    assert_eq!(gmt[3].parts, names(&["y", ""]));
}

#[test]
fn key_order_follows_score_order() {
    let scores = [-3.5, -1.0, -0.0, 0.0, 1e-300, 0.25, 7.0];
    for i in 0..scores.len() {
        for j in 0..scores.len() {
            assert_eq!(scores[i] < scores[j], key(scores[i]) < key(scores[j]));
            assert_eq!(scores[i].abs() < scores[j].abs(), key(scores[i]).abs() < key(scores[j]).abs());
        }
        assert_eq!(value(key(scores[i])), scores[i]);
    }
    assert_eq!(key(0.0), 0);
    assert_eq!(key(-2.0), -key(2.0));
}

#[test]
fn gsea_default_config_values() {
    let c = GSEAConfig::default();
    assert_eq!(c.min_overlap, 15);
    assert_eq!(c.max_overlap, 500);
    assert_eq!(c.permutations, 1000);
}

#[test]
fn overlap_at_minimum_passes_and_one_less_fails() {
    let c = GSEAConfig::default();
    assert!(c.admits(15));
    assert!(!c.admits(14));
    assert!(c.admits(500));
    assert!(!c.admits(501));
}

#[test]
fn set_hits_marks_members_once_per_place() {
    let analytes = names(&["a", "b", "c", "b", "d"]);
    let hits = set_hits(&analytes, &item("S", &["b", "d", "b", "z"]));
    assert_eq!(hits.mask, vec![false, true, false, true, true]);
    assert_eq!(hits.overlap, 3);
}

#[test]
fn set_hits_counts_the_misses() {
    let analytes = names(&["a", "b", "c", "d"]);
    let hits = set_hits(&analytes, &item("S", &["d", "a"]));
    assert_eq!(hits.overlap, 2);
    assert_eq!(hits.misses, 2);
}

#[test]
fn filter_set_follows_the_bounds() {
    let analytes = names(&["a", "b", "c", "d", "e"]);
    let config = GSEAConfig { min_overlap: 2, max_overlap: 3, permutations: 10 };
    assert!(scored(filter_set(&analytes, &item("one", &["a"]), &config)).is_none());
    let two = scored(filter_set(&analytes, &item("two", &["a", "e"]), &config)).unwrap();
    assert_eq!(two.overlap, 2);
    assert_eq!(two.mask, vec![true, false, false, false, true]);
    assert!(scored(filter_set(&analytes, &item("three", &["a", "b", "c"]), &config)).is_some());
    assert!(scored(filter_set(&analytes, &item("four", &["a", "b", "c", "d"]), &config)).is_none());
}

#[test]
fn set_below_the_minimum_overlap_gets_its_terminal_result() {
    let analytes = names(&["a", "b", "c", "d"]);
    let config = GSEAConfig { min_overlap: 3, max_overlap: 500, permutations: 1 };
    match filter_set(&analytes, &item("s", &["a", "b"]), &config) {
        SetScoring::Unscored(result) => {
            assert!(!result.scored);
            assert_eq!(result.set, "s");
            assert_eq!(result.p, Fraction { numerator: 1, denominator: 1 });
            assert_eq!(result.es, key(0.0));
            assert_eq!(result.nes, key(0.0));
            assert_eq!(result.leading_edge, 0);
            assert!(result.running_sum.is_empty());
            assert!(result.nes_iter.is_empty());
        }
        SetScoring::Scored(_) => panic!("an overlap of two is below the minimum of three"),
    }
}

#[test]
fn unscored_is_the_terminal_result() {
    let result = unscored(&item("T", &["x"]));
    assert!(!result.scored);
    assert_eq!(result.set, "T");
    assert_eq!(result.p, Fraction { numerator: 1, denominator: 1 });
    assert_eq!((result.es, result.nes, result.leading_edge), (0, 0, 0));
    assert!(result.running_sum.is_empty() && result.nes_iter.is_empty());
}

#[test]
fn split_by_side_parts_at_zero() {
    let sides = split_by_side(&keys(&[0.5, -0.25, 0.0, -1.0, 2.0]));
    assert_eq!(sides.up, keys(&[0.5, 0.0, 2.0]));
    assert_eq!(sides.down, keys(&[-0.25, -1.0]));
}

#[test]
fn to_vecs_splits_in_order() {
    let (analytes, ranks) = RankListItem::to_vecs(rank_list(&[("x", 2.0), ("y", -1.0)]));
    assert_eq!(analytes, names(&["x", "y"]));
    assert_eq!(ranks, vec![key(2.0), key(-1.0)]);
}

#[test]
fn sort_rank_list_is_descending_and_stable() {
    let sorted = sort_rank_list(&rank_list(&[("a", 1.0), ("b", 3.0), ("c", 1.0), ("d", -2.0), ("e", 3.0)]));
    let order: Vec<&str> = sorted.iter().map(|i| i.analyte.as_str()).collect();
    assert_eq!(order, vec!["b", "e", "a", "c", "d"]);
    assert_eq!(value(sorted[4].rank), -2.0);
}

#[test]
fn enrichment_score_of_a_worked_walk() {
    let mask = vec![true, false, true, false, false];
    let weights = [5.0, 4.0, 3.0, 2.0, 1.0];
    let identity: Vec<usize> = (0..5).collect();
    let sums = walk(&mask, &weights, &identity);
    assert!((sums[0] - 0.625).abs() < 1e-12);
    assert!((sums[2] - (1.0 - 1.0 / 3.0)).abs() < 1e-12);
    let es = enrichment_score(&mask, &keys(&sums), &identity);
    assert_eq!(es.peak, Some(2));
    assert!((value(es.score) - 2.0 / 3.0).abs() < 1e-12);
    assert_eq!(es.leading_edge, 2);
}

#[test]
fn enrichment_score_negative_peak_counts_from_the_end() {
    let mask = vec![false, false, true, false];
    let sums = keys(&[-0.3, -0.7, 0.3, 0.0]);
    let identity: Vec<usize> = (0..4).collect();
    let es = enrichment_score(&mask, &sums, &identity);
    assert_eq!(es.peak, Some(1));
    assert_eq!(value(es.score), -0.7);
    assert_eq!(es.leading_edge, 4);
}

#[test]
fn enrichment_score_first_of_equal_peaks_and_flat_walk() {
    let mask = vec![true, true, false];
    let identity: Vec<usize> = (0..3).collect();
    let es = enrichment_score(&mask, &keys(&[0.5, -0.5, 0.5]), &identity);
    assert_eq!(es.peak, Some(0));
    assert_eq!(es.leading_edge, 1);
    let flat = enrichment_score(&mask, &keys(&[0.0, 0.0, 0.0]), &identity);
    assert_eq!(flat.peak, None);
    assert_eq!(flat.score, 0);
    assert_eq!(flat.leading_edge, 3);
}

#[test]
fn enrichment_score_reads_hits_through_the_order() {
    let mask = vec![true, false, false];
    let order = vec![2, 1, 0];
    let es = enrichment_score(&mask, &keys(&[-0.5, -1.0, 0.2]), &order);
    assert_eq!(es.peak, Some(1));
    assert_eq!(es.leading_edge, 3);
    let late = enrichment_score(&mask, &keys(&[0.1, 0.2, 0.9]), &order);
    assert_eq!(late.peak, Some(2));
    assert_eq!(late.leading_edge, 1);
}

#[test]
fn tail_count_counts_same_side() {
    let null: Vec<i64> = keys(&[5.0, -3.0, 7.0, 0.0, -9.0]);
    let t = tail_count(&null, key(6.0));
    assert_eq!(t.side, 3);
    assert_eq!(t.beyond, 1);
    let d = tail_count(&null, key(-3.0));
    assert_eq!(d.side, 2);
    assert_eq!(d.beyond, 2);
}

#[test]
fn permutation_p_is_the_share_beyond() {
    let p = permutation_p(TailCount { beyond: 3, side: 12 });
    assert_eq!(p, Fraction { numerator: 3, denominator: 12 });
    let none = permutation_p(TailCount { beyond: 0, side: 0 });
    assert_eq!(none, Fraction { numerator: 0, denominator: 1 });
}

#[test]
fn pooled_fdr_is_a_clamped_quotient() {
    let f = pooled_fdr(TailCount { beyond: 2, side: 100 }, TailCount { beyond: 1, side: 10 });
    assert_eq!(f, Fraction { numerator: 20, denominator: 100 });
    let one = pooled_fdr(TailCount { beyond: 50, side: 100 }, TailCount { beyond: 1, side: 10 });
    assert_eq!(one, Fraction { numerator: 1, denominator: 1 });
    let undefined = pooled_fdr(TailCount { beyond: 0, side: 0 }, TailCount { beyond: 0, side: 0 });
    assert_eq!(undefined, Fraction { numerator: 0, denominator: 1 });
    let infinite = pooled_fdr(TailCount { beyond: 4, side: 9 }, TailCount { beyond: 0, side: 3 });
    assert_eq!(infinite, Fraction { numerator: 1, denominator: 1 });
}

#[test]
fn equal_scores_give_p_zero_or_one() {
    let same = keys(&[0.4, 0.4, 0.4, 0.4]);
    let at = permutation_p(tail_count(&same, key(0.4)));
    assert_eq!(at, Fraction { numerator: 4, denominator: 4 });
    let other_side = permutation_p(tail_count(&same, key(-0.4)));
    assert_eq!(other_side, Fraction { numerator: 0, denominator: 1 });
    let above = permutation_p(tail_count(&same, key(0.5)));
    assert_eq!(above.numerator, 0);
}

#[test]
fn check_permutations_accepts_permutations_only() {
    assert!(check_permutations(&vec![vec![2, 0, 1], vec![0, 1, 2]], 3));
    assert!(!check_permutations(&vec![vec![2, 0, 2]], 3));
    assert!(!check_permutations(&vec![vec![0, 1, 3]], 3));
    assert!(!check_permutations(&vec![vec![0, 1]], 3));
    assert!(check_permutations(&vec![], 3));
}

#[test]
fn make_permutations_shape_and_shuffle() {
    let table = make_permutations(200, 50).unwrap();
    assert_eq!(table.len(), 200);
    assert_eq!(table[0].len(), 50);
    assert!(check_permutations(&table, 50));
    let identity: Vec<usize> = (0..50).collect();
    assert!(table.iter().any(|row| *row != identity));
}

#[test]
fn make_permutations_refuses_a_count_of_zero() {
    match make_permutations(0, 5) {
        Err(WebGestaltError::StatisticsError(StatisticsError::InvalidValue { value })) => {
            assert_eq!(value, "permutations")
        }
        _ => panic!("a count of zero must be refused"),
    }
}

#[test]
fn permutations_from_a_seeded_generator_repeat() {
    let mut a: rand::rngs::SmallRng = rand::SeedableRng::seed_from_u64(7);
    let mut b: rand::rngs::SmallRng = rand::SeedableRng::seed_from_u64(7);
    let first = permutations_from(&mut a, 10, 30);
    let second = permutations_from(&mut b, 10, 30);
    assert_eq!(first, second);
    assert!(check_permutations(&first, 30));
    assert_eq!(permutations_from(&mut a, -3, 30).len(), 0);
}

#[test]
fn prepare_sorts_and_keeps_the_given_table() {
    let list = rank_list(&[("a", 1.0), ("b", 3.0), ("c", 2.0)]);
    let table = vec![vec![1, 2, 0], vec![0, 1, 2]];
    let input = prepare(&list, &GSEAConfig::default(), Some(table.clone())).unwrap();
    assert_eq!(input.analytes, names(&["b", "c", "a"]));
    assert_eq!(input.ranks, keys(&[3.0, 2.0, 1.0]));
    assert_eq!(input.permutations, table);
}

#[test]
fn prepare_draws_the_configured_number_of_permutations() {
    let list = rank_list(&[("a", 1.0), ("b", 3.0), ("c", 2.0), ("d", 0.5)]);
    let config = GSEAConfig { min_overlap: 1, max_overlap: 4, permutations: 25 };
    let input = prepare(&list, &config, None).unwrap();
    assert_eq!(input.permutations.len(), 25);
    assert!(check_permutations(&input.permutations, 4));
}

#[test]
fn prepare_refuses_bad_bounds_and_bad_tables() {
    let list = rank_list(&[("a", 1.0), ("b", 3.0)]);
    let bounds = GSEAConfig { min_overlap: 9, max_overlap: 3, permutations: 10 };
    match prepare(&list, &bounds, None) {
        Err(WebGestaltError::ConfigurationError(e)) => assert_eq!(e, ConfigurationError::OverlapBounds),
        _ => panic!("bounds out of order must be refused"),
    }
    match prepare(&list, &GSEAConfig::default(), Some(vec![vec![0, 0]])) {
        Err(WebGestaltError::StatisticsError(StatisticsError::InvalidValue { value })) => {
            assert_eq!(value, "permutation table")
        }
        _ => panic!("a table that is no permutation must be refused"),
    }
    let none = GSEAConfig { min_overlap: 1, max_overlap: 3, permutations: 0 };
    assert!(prepare(&list, &none, None).is_err());
}

#[test]
fn analyte_set_p_reads_score_edge_and_p() {
    let set = item("S", &["a", "c"]);
    let mask = vec![true, false, true, false, false];
    let running = keys(&[0.625, 0.29, 0.67, 0.33, 0.0]);
    let es_iter = keys(&[0.7, 0.2, -0.4, 0.67, 0.9, -0.8]);
    let partial =
        analyte_set_p(&set, &mask, running.clone(), &es_iter, key(1.5), keys(&[1.0, -1.0])).unwrap();
    assert!(partial.scored);
    assert_eq!(partial.set, "S");
    assert_eq!(value(partial.es), 0.67);
    assert_eq!(partial.leading_edge, 2);
    assert_eq!(partial.p, Fraction { numerator: 3, denominator: 4 });
    assert_eq!(partial.running_sum, running);
    assert_eq!(value(partial.nes), 1.5);
    assert_eq!(partial.nes_iter, keys(&[1.0, -1.0]));
}

#[test]
fn gsea_pools_the_null_over_all_sets() {
    let a = PartialGSEAResult {
        scored: true,
        set: "A".to_string(),
        p: Fraction { numerator: 1, denominator: 4 },
        es: key(0.6),
        nes: key(2.0),
        leading_edge: 2,
        running_sum: keys(&[0.6, 0.1]),
        nes_iter: keys(&[1.0, 2.5, -1.0, 0.5]),
    };
    let b = PartialGSEAResult {
        scored: true,
        set: "B".to_string(),
        p: Fraction { numerator: 0, denominator: 1 },
        es: key(-0.5),
        nes: key(-1.5),
        leading_edge: 1,
        running_sum: keys(&[-0.5, 0.0]),
        nes_iter: keys(&[3.0, -2.0, -0.5, 1.0]),
    };
    let c = PartialGSEAResult {
        scored: true,
        set: "C".to_string(),
        p: Fraction { numerator: 1, denominator: 2 },
        es: key(0.2),
        nes: key(1.0),
        leading_edge: 1,
        running_sum: keys(&[0.2, 0.0]),
        nes_iter: keys(&[]),
    };
    let results = gsea(vec![a, b, c]);
    assert_eq!(results.len(), 3);
    assert_eq!(results[0].set, "A");
    assert_eq!(results[0].p, Fraction { numerator: 1, denominator: 4 });
    assert_eq!(value(results[0].es), 0.6);
    assert_eq!(results[0].leading_edge, 2);
    assert_eq!(results[0].running_sum, keys(&[0.6, 0.1]));
    // null on the upper side: 1.0 2.5 0.5 3.0 1.0; observed there: 2.0 1.0
    assert_eq!(results[0].fdr, Fraction { numerator: 2 * 2, denominator: 1 * 5 });
    // null on the lower side: -1.0 -2.0 -0.5; observed there: -1.5
    assert_eq!(results[1].fdr, Fraction { numerator: 1 * 1, denominator: 1 * 3 });
    // four of five null scores reach 1.0, both observed scores do
    assert_eq!(results[2].fdr, Fraction { numerator: 4 * 2, denominator: 2 * 5 });
}

#[test]
fn analyte_set_p_refuses_a_normalised_score_on_the_other_side() {
    let set = item("S", &["a"]);
    let mask = vec![true, false];
    let wrong = analyte_set_p(&set, &mask, keys(&[0.5, 0.0]), &keys(&[0.1]), key(-1.0), Vec::new());
    match wrong {
        Err(WebGestaltError::StatisticsError(StatisticsError::InvalidValue { value })) => {
            assert_eq!(value, "normalised score")
        }
        _ => panic!("a score below zero does not fit a walk above zero"),
    }
    let zero = analyte_set_p(&set, &mask, keys(&[0.5, 0.0]), &keys(&[0.1]), key(0.0), Vec::new());
    assert!(zero.is_ok());
    let below = analyte_set_p(&set, &mask, keys(&[-0.5, 0.0]), &keys(&[0.1]), key(-2.0), Vec::new());
    assert_eq!(value(below.unwrap().nes), -2.0);
}

#[test]
fn gsea_keeps_unscored_sets_out_of_the_pools() {
    let scored_set = |id: &str, nes: f64, nes_iter: &[f64]| PartialGSEAResult {
        scored: true,
        set: id.to_string(),
        p: Fraction { numerator: 1, denominator: 4 },
        es: key(nes / 4.0),
        nes: key(nes),
        leading_edge: 1,
        running_sum: keys(&[nes / 4.0, 0.0]),
        nes_iter: keys(nes_iter),
    };
    let with = gsea(vec![
        scored_set("A", 2.0, &[1.0, 2.5, 0.5]),
        unscored(&item("skipped", &["q"])),
        scored_set("B", 1.0, &[3.0, 1.0]),
    ]);
    let without = gsea(vec![scored_set("A", 2.0, &[1.0, 2.5, 0.5]), scored_set("B", 1.0, &[3.0, 1.0])]);
    assert_eq!(with.len(), 3);
    assert_eq!(with[0].fdr, without[0].fdr);
    assert_eq!(with[2].fdr, without[1].fdr);
    assert_eq!(with[0].fdr, Fraction { numerator: 2 * 2, denominator: 1 * 5 });
    assert_eq!(with[1].set, "skipped");
    assert_eq!(with[1].p, Fraction { numerator: 1, denominator: 1 });
    assert_eq!(with[1].fdr, Fraction { numerator: 1, denominator: 1 });
    assert!(with[1].running_sum.is_empty());
}

#[test]
fn gsea_is_the_same_on_the_same_table() {
    let pairs: Vec<(String, f64)> = (0..200)
        .map(|i| (format!("g{}", i), 100.0 - i as f64 + ((i * 13) % 7) as f64 * 0.1))
        .collect();
    let list: Vec<RankListItem> =
        pairs.iter().map(|(a, s)| RankListItem { analyte: a.clone(), rank: key(*s) }).collect();
    let table = rotations(1000, 200);
    let members: Vec<String> = (0..20).map(|i| format!("g{}", (i * 7 + 3) % 200)).collect();
    let set = Item { id: "S".to_string(), url: String::new(), parts: members };
    let config = GSEAConfig::default();
    assert_eq!(set_hits(&list.iter().map(|i| i.analyte.clone()).collect(), &set).overlap, 20);
    let mut runs = Vec::new();
    for _ in 0..2 {
        let input = prepare(&list, &config, Some(table.clone())).unwrap();
        let partial = score_set(&input.analytes, &input.ranks, &set, &input.permutations);
        runs.push(gsea(vec![partial]));
    }
    assert_eq!(runs[0][0].es, runs[1][0].es);
    assert_eq!(runs[0][0].nes, runs[1][0].nes);
    assert_eq!(runs[0][0].p, runs[1][0].p);
    assert_eq!(runs[0][0].fdr, runs[1][0].fdr);
    assert_eq!(runs[0][0].running_sum.len(), 200);
    assert_eq!(runs[0][0].running_sum, runs[1][0].running_sum);
    assert_eq!(runs[0][0].leading_edge, runs[1][0].leading_edge);
    assert!(runs[0][0].p.numerator <= runs[0][0].p.denominator);
    assert!(runs[0][0].fdr.numerator <= runs[0][0].fdr.denominator);
    assert!(value(runs[0][0].es) != 0.0);
}
