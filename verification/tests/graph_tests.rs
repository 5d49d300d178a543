use abd_clam::builder::{avg_score, detect_edges, get_clusterset, score_clusters, select_clusters};
use abd_clam::cluster::Cluster;
use abd_clam::component::{Component, Graph as CompactGraph};
use abd_clam::criteria::PartitionCriteria;
use abd_clam::dataset::{euclidean_sq, Metric, VecDataset};
use abd_clam::edge::Edge;
use abd_clam::errors::GraphError;
use abd_clam::graph::Graph;
use abd_clam::stationary::PROB_SCALE;

fn mk(offset: usize, cardinality: usize, depth: usize, radius: u64, arg_center: usize, is_leaf: bool) -> Cluster {
    Cluster {
        offset,
        cardinality,
        depth,
        radius,
        arg_center,
        is_leaf,
        ratios: [1, 2, 3, 4, 5, 6],
        accumulated_cp_car_ratio: 7,
    }
}

fn one_d_data() -> VecDataset {
    let points: Vec<Vec<u64>> = vec![
        vec![30],
        vec![12],
        vec![0],
        vec![26],
        vec![16],
        vec![14],
        vec![11],
        vec![10],
    ];
    VecDataset::new(points, Metric::EuclideanSq)
}

fn leaves() -> Vec<Cluster> {
    vec![
        mk(0, 2, 2, 324, 0, true),
        mk(2, 2, 2, 676, 2, true),
        mk(4, 2, 2, 4, 4, true),
        mk(6, 2, 2, 1, 6, true),
    ]
}

fn subtree() -> Vec<Cluster> {
    let mut s = vec![
        mk(0, 8, 0, 900, 0, false),
        mk(0, 4, 1, 900, 0, false),
        mk(4, 8, 1, 40, 4, false),
    ];
    s.extend(leaves());
    s
}

#[test]
fn create_graph() {
    let data = one_d_data();
    let selected = leaves();
    let edges = detect_edges(&selected, &data);
    assert_eq!(edges.len(), 4);
    let graph = Graph::new(selected.clone(), edges);
    assert_eq!(graph.vertex_cardinality(), 4);
    assert_eq!(graph.edge_cardinality(), 4);
    assert_eq!(graph.population, 8);
    assert_eq!(graph.depth_range(), (2, 2));

    let components = graph.find_component_clusters();
    let total: usize = components.iter().map(|c| c.len()).sum();
    assert_eq!(total, 4);
    let graph = graph.with_eccentricities();
    for component in &components {
        for c in component {
            let (visited, widths) = graph.traverse(c).unwrap();
            assert_eq!(visited.len(), component.len());
            assert!(!widths.is_empty());
            // The width record of a traversal is as long as the stored
            // eccentricity of its start.
            assert_eq!(widths.len(), graph.eccentricity(c).unwrap());
        }
    }
}

#[test]
fn adjacency_map() {
    let data = one_d_data();
    let selected = leaves();
    let edges = detect_edges(&selected, &data);
    let graph = Graph::new(selected, edges);
    for component in &graph.find_component_clusters() {
        for c in component {
            for n in graph.neighbors_of(c).unwrap() {
                assert!(component.iter().any(|m| m.offset == n.offset && m.cardinality == n.cardinality));
            }
        }
    }
    // Adjacency symmetry, checked pairwise over degrees and neighbor lists.
    for a in &graph.clusters {
        for b in graph.neighbors_of(a).unwrap() {
            let back = graph.neighbors_of(&b).unwrap();
            assert!(back.iter().any(|m| m.offset == a.offset && m.cardinality == a.cardinality));
        }
    }
}

#[test]
fn scoring() {
    let tree = subtree();
    let scores: Vec<u64> = vec![3, 9, 9, 4, 4, 8, 1];
    let queue = score_clusters(&tree, &scores);
    assert_eq!(queue.len(), tree.len());
    let mut prev = u64::MAX;
    for w in &queue {
        assert!(w.score <= prev);
        prev = w.score;
    }
    let selection = get_clusterset(queue);
    assert!(selection.len() > 1);
    for i in &selection {
        for j in &selection {
            if !(i.offset == j.offset && i.cardinality == j.cardinality) {
                assert!(!i.is_ancestor_of(j) && !i.is_descendant_of(j));
            }
        }
    }
    // Coverage: every subtree cluster is selected, or related to a
    // selection member.
    for c in &tree {
        let covered = selection.iter().any(|s| {
            (s.offset == c.offset && s.cardinality == c.cardinality)
                || s.is_ancestor_of(c)
                || c.is_ancestor_of(s)
        });
        assert!(covered);
    }
}

#[test]
fn depth_cut_selection() {
    let tree = subtree();
    let cut = select_clusters(&tree);
    // The root has depth zero, so the cut keeps exactly the depth-zero
    // clusters.
    assert_eq!(cut.len(), 1);
    assert_eq!(cut[0].offset, 0);
    assert_eq!(cut[0].cardinality, 8);
}

#[test]
fn one_dimensional_pipeline() {
    // Eight one-dimensional points; a hand-built tree over them; a
    // score-driven antichain; edges by ball overlap; population checks.
    let data = one_d_data();
    let tree = subtree();
    let scores: Vec<u64> = vec![0, 0, 0, 5, 5, 5, 5];
    let g = CompactGraph::from_tree(&tree, &scores, 2, &data).unwrap();
    assert_eq!(g.population(), 8);
    assert!(g.contains(0, 2));
    assert!(g.contains(6, 2));
    assert!(!g.contains(1, 3));
    let members = g.iter_clusters();
    assert_eq!(members.len(), 4);
    // Components partition the selection, and every member's traversal
    // reaches its whole component.
    let mut g = g;
    let sizes = g.neighborhood_sizes();
    let mut total = 0;
    for row in &sizes {
        assert!(!row.is_empty());
        total += 1;
        for t in 1..row.len() {
            assert!(row[t - 1] <= row[t]);
        }
    }
    assert_eq!(total, 4);
    assert_eq!(g.diameter(), 4);
}

#[test]
fn singleton_component_is_anomalous() {
    let data = one_d_data();
    let single = vec![mk(0, 3, 1, 9, 0, true)];
    let comp = Component::new(&single, &data);
    assert_eq!(comp.compute_stationary_probabilities(0), vec![0]);
    assert_eq!(comp.compute_stationary_probabilities(1), vec![0]);
    assert_eq!(comp.compute_stationary_probabilities(5), vec![0]);
}

#[test]
fn two_node_rows_normalize_to_one() {
    let data = one_d_data();
    // Two overlapping clusters at squared distance 324 > 0.
    let pair = vec![mk(0, 2, 1, 400, 0, true), mk(2, 2, 1, 400, 1, true)];
    let comp = Component::new(&pair, &data);
    // Before any squaring, each row of the transition matrix carries the
    // whole probability mass.
    let before = comp.compute_stationary_probabilities(0);
    assert_eq!(before, vec![PROB_SCALE, PROB_SCALE]);
    // One squaring keeps the mass on a two-cycle.
    let after = comp.compute_stationary_probabilities(1);
    assert_eq!(after, vec![PROB_SCALE, PROB_SCALE]);
}

#[test]
fn two_distant_nodes_keep_their_mass() {
    // Centers at squared distance 1048576, above the fixed-point scale:
    // the clamped weight still carries the whole mass, so each
    // row-normalized row sums to one.
    let data = VecDataset::new(vec![vec![0], vec![1024]], Metric::EuclideanSq);
    let pair = vec![mk(0, 1, 1, 600000, 0, true), mk(1, 1, 1, 600000, 1, true)];
    let comp = Component::new(&pair, &data);
    assert_eq!(comp.compute_stationary_probabilities(0), vec![PROB_SCALE, PROB_SCALE]);
    assert_eq!(comp.compute_stationary_probabilities(1), vec![PROB_SCALE, PROB_SCALE]);
    assert_eq!(comp.compute_stationary_probabilities(3), vec![PROB_SCALE, PROB_SCALE]);
}

#[test]
fn edge_canonical_order() {
    let a = mk(0, 2, 2, 5, 0, true);
    let b = mk(2, 2, 2, 5, 2, true);
    let e1 = Edge::new(a, b, 17);
    let e2 = Edge::new(b, a, 17);
    assert_eq!(e1.left.offset, 0);
    assert_eq!(e2.left.offset, 0);
    // Equality goes by the canonical pair alone: neither the argument
    // order nor the distance label tells two edges apart.
    assert_eq!(e1, e2);
    assert_eq!(e1, Edge::new(b, a, 99));
    assert!(!e1.is_circular());
    assert_eq!(e1.neighbor(&a).unwrap().offset, 2);
    assert_eq!(e1.neighbor(&b).unwrap().offset, 0);
    let c = mk(4, 2, 2, 5, 4, true);
    assert_ne!(e1, Edge::new(a, c, 17));
    assert_eq!(e1.neighbor(&c), Err(GraphError::UnrelatedCluster));
    assert!(Edge::new(a, a, 0).is_circular());
}

#[test]
fn unknown_cluster_is_reported() {
    let data = one_d_data();
    let selected = leaves();
    let edges = detect_edges(&selected, &data);
    let graph = Graph::new(selected, edges);
    let stranger = mk(100, 2, 2, 5, 0, true);
    assert!(matches!(graph.traverse(&stranger), Err(GraphError::UnknownCluster)));
    assert!(matches!(graph.vertex_degree(&stranger), Err(GraphError::UnknownCluster)));
    assert_eq!(
        GraphError::UnknownCluster.message(),
        "the cluster is not in this graph"
    );
}

#[test]
fn distance_matrix_and_adjacency() {
    let data = one_d_data();
    let selected = leaves();
    let edges = detect_edges(&selected, &data);
    let graph = Graph::new(selected, edges).with_distance_matrix().with_adjacency_matrix();
    let dm = graph.distance_matrix.clone().unwrap();
    assert_eq!(dm[0][1], 900);
    assert_eq!(dm[1][0], 900);
    assert_eq!(dm[0][3], 0);
    assert_eq!(dm[2][2], 0);
    let am = graph.adjacency_matrix.clone().unwrap();
    assert!(am[0][1] && am[1][0] && am[1][3]);
    assert!(!am[0][3] && !am[2][3]);
    let graph = graph.with_eccentricities();
    let e = graph.eccentricity(&graph.clusters[3].clone()).unwrap();
    assert!(e >= 2);
    assert!(graph.diameter() >= e);
}

#[test]
fn metric_wrappers_measure() {
    // The squared euclidean wrapper really measures: a zero distance only
    // for identical points.
    assert_eq!(euclidean_sq(&vec![1, 2], &vec![4, 6]), 25);
    assert_eq!(euclidean_sq(&vec![7, 7], &vec![7, 7]), 0);
    let d = VecDataset::new(vec![vec![1], vec![4]], Metric::Manhattan);
    assert_eq!(d.distance(0, 1), 3);
    assert_eq!(d.distance(1, 0), 3);
    let d2 = VecDataset::new(vec![vec![1, 10], vec![4, 2]], Metric::EuclideanSq);
    assert_eq!(d2.distance(0, 1), 73);
}

#[test]
fn average_score() {
    assert_eq!(avg_score(&vec![2, 4, 9]), 5);
    assert_eq!(avg_score(&vec![8]), 8);
}

#[test]
fn partition_criteria_combine() {
    let c = mk(0, 10, 3, 5, 0, false);
    let all = PartitionCriteria::new(true).with_max_depth(4).with_min_cardinality(5);
    assert!(all.check(&c));
    let all2 = PartitionCriteria::new(true).with_max_depth(2);
    assert!(!all2.check(&c));
    let any = PartitionCriteria::new(false).with_max_depth(2).with_min_cardinality(5);
    assert!(any.check(&c));
    let singleton = mk(0, 10, 3, 0, 0, false);
    assert!(!PartitionCriteria::new(true).check(&singleton));
}
