use webgestalt_lib::methods::nta::build_graph;
use webgestalt_lib::methods::nta::degrees;
use webgestalt_lib::methods::nta::get_nta;
use webgestalt_lib::methods::nta::process_nta;
use webgestalt_lib::methods::nta::seed_indices;
use webgestalt_lib::methods::nta::NTAConfig;
use webgestalt_lib::methods::nta::NTAMethod;
use webgestalt_lib::methods::nta::NodeScore;
use webgestalt_lib::GraphError;
use webgestalt_lib::WebGestaltError;

fn key(x: f64) -> i64 {
    let b = x.to_bits() as i64;
    if b >= 0 {
        b
    } else {
        i64::MIN.wrapping_sub(b)
    }
}

fn value(k: i64) -> f64 {
    if k >= 0 {
        f64::from_bits(k as u64)
    } else {
        -f64::from_bits((-k) as u64)
    }
}

fn names(list: &[&str]) -> Vec<String> {
    list.iter().map(|s| s.to_string()).collect()
}

fn edges(list: &[(&str, &str)]) -> Vec<Vec<String>> {
    list.iter().map(|(a, b)| vec![a.to_string(), b.to_string()]).collect()
}

fn ranked(list: &[(&str, f64)]) -> Vec<NodeScore> {
    list.iter().map(|(n, p)| NodeScore { node: n.to_string(), score: key(*p) }).collect()
}

fn config(seeds: &[&str], method: Option<NTAMethod>) -> NTAConfig {
    NTAConfig { edge_list: Vec::new(), seeds: names(seeds), method }
}

/// The walk with restart on an adjacency matrix, in real numbers.
fn random_walk(adjacency: &Vec<Vec<bool>>, seeds: &[usize], r: f64, tolerance: f64) -> Vec<f64> {
    let n = adjacency.len();
    let degree: Vec<f64> = degrees(adjacency).iter().map(|d| *d as f64).collect();
    let mut p0 = vec![0.0; n];
    for s in seeds {
        p0[*s] = 1.0 / seeds.len() as f64;
    }
    let step = |p: &Vec<f64>| -> Vec<f64> {
        (0..n)
            .map(|row| {
                let mut sum = 0.0;
                for c in 0..n {
                    if adjacency[row][c] && degree[c] > 0.0 {
                        sum += p[c] / degree[c];
                    }
                }
                (1.0 - r) * sum + r * p0[row]
            })
            .collect()
    };
    let mut pt = p0.clone();
    let mut pt1 = step(&pt);
    while pt1.iter().zip(pt.iter()).map(|(a, b)| (a - b).abs()).sum::<f64>() > tolerance {
        pt = pt1;
        pt1 = step(&pt);
    }
    pt1
}

#[test]
fn default_config_is_empty() {
    let c = NTAConfig::default();
    assert!(c.edge_list.is_empty());
    assert!(c.seeds.is_empty());
    assert_eq!(c.method, None);
}

#[test]
fn build_graph_numbers_nodes_by_first_occurrence() {
    let graph = build_graph(&edges(&[("b", "a"), ("a", "c"), ("c", "b"), ("d", "d")])).unwrap();
    assert_eq!(graph.nodes, names(&["b", "a", "c", "d"]));
    assert_eq!(graph.edges, vec![(0, 1), (1, 2), (2, 0), (3, 3)]);
}

#[test]
fn build_graph_reads_the_first_two_names_of_a_row() {
    let rows = vec![names(&["a", "b", "weight"]), names(&["b", "c"])];
    let graph = build_graph(&rows).unwrap();
    assert_eq!(graph.nodes, names(&["a", "b", "c"]));
    assert_eq!(graph.edges, vec![(0, 1), (1, 2)]);
}

#[test]
fn build_graph_reports_the_first_incomplete_row() {
    let rows = vec![names(&["a", "b"]), names(&["c"]), names(&[])];
    match build_graph(&rows) {
        Err(WebGestaltError::GraphError(GraphError::IncompleteEdge { row })) => assert_eq!(row, 1),
        _ => panic!("a row with one node must be refused"),
    }
    assert!(build_graph(&Vec::new()).unwrap().nodes.is_empty());
}

#[test]
fn adjacency_is_symmetric() {
    let graph = build_graph(&edges(&[("a", "b"), ("b", "c"), ("a", "b")])).unwrap();
    let m = graph.adjacency();
    assert_eq!(
        m,
        vec![vec![false, true, false], vec![true, false, true], vec![false, true, false]]
    );
}

#[test]
fn degrees_count_the_neighbours() {
    let graph = build_graph(&edges(&[("a", "b"), ("b", "c"), ("a", "b"), ("d", "d")])).unwrap();
    assert_eq!(degrees(&graph.adjacency()), vec![1, 2, 1, 1]);
    assert_eq!(degrees(&Vec::new()), Vec::<usize>::new());
}

#[test]
fn seed_indices_finds_nodes_and_reports_the_first_stranger() {
    let nodes = names(&["a", "b", "c"]);
    assert_eq!(seed_indices(&nodes, &names(&["c", "a", "c"])).unwrap(), vec![2, 0, 2]);
    match seed_indices(&nodes, &names(&["a", "x", "y"])) {
        Err(WebGestaltError::GraphError(GraphError::UnknownSeed { seed })) => assert_eq!(seed, "x"),
        _ => panic!("a seed outside of the graph must be refused"),
    }
    assert_eq!(seed_indices(&nodes, &Vec::new()).unwrap(), Vec::<usize>::new());
}

#[test]
fn process_nta_ranks_by_probability() {
    let nodes = names(&["a", "b", "c", "d"]);
    let out = process_nta(&nodes, &vec![key(0.1), key(0.4), key(0.1), key(0.3)]);
    let order: Vec<&str> = out.iter().map(|n| n.node.as_str()).collect();
    assert_eq!(order, vec!["b", "d", "a", "c"]);
    assert_eq!(value(out[0].score), 0.4);
}

#[test]
fn expand_keeps_the_best_nodes_that_are_no_seeds() {
    let list = ranked(&[("s1", 0.5), ("a", 0.2), ("s2", 0.15), ("b", 0.1), ("c", 0.05)]);
    let out = get_nta(&config(&["s1", "s2"], Some(NTAMethod::Expand(2))), &list);
    assert_eq!(out.neighborhood, names(&["a", "b"]));
    assert_eq!(out.scores, vec![key(0.2), key(0.1)]);
    assert!(out.candidates.is_empty());
}

#[test]
fn prioritize_keeps_the_best_seeds_and_names_candidates() {
    let list = ranked(&[("s1", 0.5), ("a", 0.2), ("s2", 0.15), ("s3", 0.1), ("c", 0.05)]);
    let out = get_nta(&config(&["s1", "s2", "s3"], Some(NTAMethod::Prioritize(2))), &list);
    assert_eq!(out.neighborhood, names(&["s1", "s2"]));
    assert_eq!(out.scores, vec![key(0.5), key(0.15)]);
    assert_eq!(out.candidates, names(&["s1"]));
    let all = get_nta(&config(&["s1", "s2", "s3"], Some(NTAMethod::Prioritize(5))), &list);
    assert_eq!(all.neighborhood, names(&["s1", "s2", "s3"]));
    assert_eq!(all.candidates, names(&["s1", "s2", "s3"]));
}

#[test]
fn size_zero_keeps_nothing_and_no_method_expands_ten() {
    let list = ranked(&[("s", 0.5), ("a", 0.2)]);
    let none = get_nta(&config(&["s"], Some(NTAMethod::Prioritize(0))), &list);
    assert!(none.neighborhood.is_empty());
    assert!(none.candidates.is_empty());
    let many: Vec<(String, f64)> = (0..15).map(|i| (format!("n{}", i), 1.0 - i as f64 * 0.01)).collect();
    let listed: Vec<NodeScore> =
        many.iter().map(|(n, p)| NodeScore { node: n.clone(), score: key(*p) }).collect();
    let out = get_nta(&config(&["n0"], None), &listed);
    assert_eq!(out.neighborhood.len(), 10);
    assert_eq!(out.neighborhood[0], "n1");
}

#[test]
fn chain_of_ten_nodes_expands_to_the_next_three() {
    let pairs: Vec<(String, String)> = (0..9).map(|i| (format!("n{}", i), format!("n{}", i + 1))).collect();
    let rows: Vec<Vec<String>> = pairs.iter().map(|(a, b)| vec![a.clone(), b.clone()]).collect();
    let graph = build_graph(&rows).unwrap();
    assert_eq!(graph.nodes.len(), 10);
    assert_eq!(graph.edges.len(), 9);
    let seeds = names(&["n0"]);
    let starts = seed_indices(&graph.nodes, &seeds).unwrap();
    let walk = random_walk(&graph.adjacency(), &starts, 0.5, 1e-6);
    assert!((walk.iter().sum::<f64>() - 1.0).abs() < 1e-4);
    let keys: Vec<i64> = walk.iter().map(|p| key(*p)).collect();
    let nodes = process_nta(&graph.nodes, &keys);
    let settings = NTAConfig { edge_list: rows, seeds, method: Some(NTAMethod::Expand(3)) };
    let out = get_nta(&settings, &nodes);
    assert_eq!(out.neighborhood, names(&["n1", "n2", "n3"]));
    assert!(out.scores[0] > out.scores[1] && out.scores[1] > out.scores[2]);
}

#[test]
fn isolated_seed_holds_all_mass_that_is_left() {
    let rows = edges(&[("a", "b"), ("s", "s")]);
    let graph = build_graph(&rows).unwrap();
    let mut matrix = graph.adjacency();
    let s = seed_indices(&graph.nodes, &names(&["s"])).unwrap()[0];
    matrix[s][s] = false;
    let walk = random_walk(&matrix, &[s], 0.5, 1e-6);
    assert!(walk[s] > 0.0);
    let others: f64 = (0..walk.len()).filter(|i| *i != s).map(|i| walk[i]).sum();
    assert_eq!(others, 0.0);
}
