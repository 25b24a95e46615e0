//! Scenario tests for the layout algorithms.

use visgraph::bipartite::{bipartite_layout, bipartite_positions, discover_partition};
use visgraph::circular::circular_layout;
use visgraph::fixed::{HALF, QUARTER, THREE_QUARTERS, UNIT};
use visgraph::force_directed::{force_directed_layout, force_directed_raw};
use visgraph::graph::GraphData;
use visgraph::hierarchical::{hierarchical_layout, hierarchy_assign, Orientation};
use visgraph::position::PositionMap;
use visgraph::random::{random_layout_seeded, random_positions};

fn nodes_only(n: usize) -> GraphData {
    GraphData::new(n, vec![], false).expect("valid graph")
}

fn to_f64(v: i64) -> f64 {
    v as f64 / UNIT as f64
}

fn in_unit_square_exec(map: &PositionMap) -> bool {
    (0..map.len()).all(|i| {
        let p = map.get(i);
        0 <= p.x && p.x <= UNIT && 0 <= p.y && p.y <= UNIT
    })
}

#[test]
fn test_graph_data_rejects_bad_endpoint() {
    assert!(GraphData::new(2, vec![(0, 2)], true).is_none());
    assert!(GraphData::new(3, vec![(0, 2), (2, 1)], true).is_some());
}

#[test]
fn test_circular_all_nodes_at_half_radius() {
    for n in 2..10usize {
        let map = circular_layout(&nodes_only(n));
        assert_eq!(map.len(), n);
        for i in 0..n {
            let p = map.get(i);
            let dx = p.x - HALF;
            let dy = p.y - HALF;
            let four_d2 = 4 * (dx * dx + dy * dy);
            assert!(UNIT * UNIT - 6 * UNIT <= four_d2 && four_d2 <= UNIT * UNIT);
            let dist = (to_f64(dx).powi(2) + to_f64(dy).powi(2)).sqrt();
            assert!((dist - 0.5).abs() < 1e-5);
        }
    }
}

#[test]
fn test_circular_antipodal_pairs() {
    for n in [2usize, 4, 6, 10] {
        let map = circular_layout(&nodes_only(n));
        for i in 0..n / 2 {
            let p = map.get(i);
            let q = map.get(i + n / 2);
            assert_eq!(p.x + q.x, UNIT);
            assert_eq!(p.y + q.y, UNIT);
        }
    }
}

#[test]
fn test_circular_first_node_topmost() {
    let map = circular_layout(&nodes_only(4));
    // Node 0 sits at the topmost point of the circle (y grows downward).
    assert_eq!(map.get(0).x, HALF);
    assert_eq!(map.get(0).y, 0);
}

#[test]
fn test_circular_single_node() {
    // The documented single-node value: the topmost point of the circle.
    let map = circular_layout(&nodes_only(1));
    assert_eq!(map.len(), 1);
    assert_eq!(map.get(0).x, HALF);
    assert_eq!(map.get(0).y, 0);
}

#[test]
fn test_circular_empty_graph() {
    let map = circular_layout(&nodes_only(0));
    assert_eq!(map.len(), 0);
}

#[test]
fn test_bipartite_explicit_sides() {
    // Left side: nodes 0, 2, 4; right side: nodes 1, 3.
    let is_left = vec![true, false, true, false, true];
    let map = bipartite_positions(5, &is_left);
    // x by side.
    assert_eq!(map.get(0).x, QUARTER);
    assert_eq!(map.get(2).x, QUARTER);
    assert_eq!(map.get(4).x, QUARTER);
    assert_eq!(map.get(1).x, THREE_QUARTERS);
    assert_eq!(map.get(3).x, THREE_QUARTERS);
    // y strictly increasing within a side, spanning [0, 1].
    assert_eq!(map.get(0).y, 0);
    assert_eq!(map.get(2).y, HALF);
    assert_eq!(map.get(4).y, UNIT);
    assert_eq!(map.get(1).y, 0);
    assert_eq!(map.get(3).y, UNIT);
    assert!(map.get(0).y < map.get(2).y && map.get(2).y < map.get(4).y);
}

#[test]
fn test_square_cycle_bipartite_with_explicit_partition() {
    // A 4-node cycle with {0, 2} as the Left side.
    let g = GraphData::new(4, vec![(0, 1), (1, 2), (2, 3), (3, 0)], false).unwrap();
    let is_left = vec![true, false, true, false];
    let map = bipartite_layout(&g, Some(&is_left));
    assert_eq!(map.get(0).x, QUARTER);
    assert_eq!(map.get(0).y, 0);
    assert_eq!(map.get(2).x, QUARTER);
    assert_eq!(map.get(2).y, UNIT);
    assert_eq!(map.get(1).x, THREE_QUARTERS);
    assert_eq!(map.get(1).y, 0);
    assert_eq!(map.get(3).x, THREE_QUARTERS);
    assert_eq!(map.get(3).y, UNIT);
}

#[test]
fn test_bipartite_discovered_on_path() {
    // Path 0 - 1 - 2: depth parity alternates the sides.
    let g = GraphData::new(3, vec![(0, 1), (1, 2)], false).unwrap();
    let sides = discover_partition(&g);
    assert_eq!(sides, vec![true, false, true]);
    let map = bipartite_layout(&g, None);
    assert_eq!(map.get(0).x, QUARTER);
    assert_eq!(map.get(2).x, QUARTER);
    assert_eq!(map.get(1).x, THREE_QUARTERS);
    assert_eq!(map.get(0).y, 0);
    assert_eq!(map.get(2).y, UNIT);
    assert_eq!(map.get(1).y, 0);
}

#[test]
fn test_bipartite_discovered_separates_even_cycle() {
    // An undirected even cycle is bipartite: the discovered sides put the
    // two ends of every edge on opposite sides.
    let edges = vec![(0, 1), (1, 2), (2, 3), (3, 4), (4, 5), (5, 0)];
    let g = GraphData::new(6, edges.clone(), false).unwrap();
    let sides = discover_partition(&g);
    for (a, b) in edges {
        assert_ne!(sides[a], sides[b]);
    }
}

#[test]
fn test_bipartite_odd_cycle_still_two_colors() {
    // A triangle is not bipartite; the traversal still assigns sides and
    // raises no error.
    let g = GraphData::new(3, vec![(0, 1), (1, 2), (2, 0)], false).unwrap();
    let sides = discover_partition(&g);
    assert_eq!(sides.len(), 3);
    let map = bipartite_layout(&g, None);
    assert_eq!(map.len(), 3);
    assert!(in_unit_square_exec(&map));
}

#[test]
fn test_hierarchical_directed_chain() {
    // Edges: 0->1, 1->2, 1->3, 3->4. Depths: 0, 1, 2, 2, 3.
    let g = GraphData::new(5, vec![(0, 1), (1, 2), (1, 3), (3, 4)], true).unwrap();
    let (rows, cols, tree, max_col, max_row) = hierarchy_assign(&g);
    assert_eq!(rows, vec![0, 1, 2, 2, 3]);
    assert_eq!(max_row, 3);
    assert_eq!(max_col, 1);
    // Every discovered tree edge descends exactly one row.
    assert_eq!(tree.len(), 4);
    for &(p, c) in &tree {
        assert_eq!(rows[c], rows[p] + 1);
    }
    // The parent sits centered between its first and last child.
    assert_eq!(cols[1] * 2, cols[2] + cols[3]);
    // Normalized rows: 0, 1/3, 2/3, 2/3, 1.
    let map = hierarchical_layout(&g, Orientation::TopToBottom);
    assert_eq!(map.get(0).y, 0);
    assert!((to_f64(map.get(1).y) - 1.0 / 3.0).abs() < 1e-5);
    assert!((to_f64(map.get(2).y) - 2.0 / 3.0).abs() < 1e-5);
    assert_eq!(map.get(4).y, UNIT);
    assert!(in_unit_square_exec(&map));
}

#[test]
fn test_hierarchical_bottom_to_top_mirrors() {
    let g = GraphData::new(5, vec![(0, 1), (1, 2), (1, 3), (3, 4)], true).unwrap();
    let top = hierarchical_layout(&g, Orientation::TopToBottom);
    let bottom = hierarchical_layout(&g, Orientation::BottomToTop);
    for i in 0..5 {
        assert_eq!(bottom.get(i).y, UNIT - top.get(i).y);
        assert_eq!(bottom.get(i).x, top.get(i).x);
    }
}

#[test]
fn test_hierarchical_transposed_orientations() {
    let g = GraphData::new(3, vec![(0, 1), (0, 2)], true).unwrap();
    let top = hierarchical_layout(&g, Orientation::TopToBottom);
    let ltr = hierarchical_layout(&g, Orientation::LeftToRight);
    let rtl = hierarchical_layout(&g, Orientation::RightToLeft);
    for i in 0..3 {
        assert_eq!(ltr.get(i).x, top.get(i).y);
        assert_eq!(ltr.get(i).y, top.get(i).x);
        assert_eq!(rtl.get(i).x, UNIT - top.get(i).y);
        assert_eq!(rtl.get(i).y, top.get(i).x);
    }
}

#[test]
fn test_hierarchical_undirected_fallback_roots() {
    // An undirected triangle has no node without incoming edges; the
    // fallback pass roots the layout at the highest-degree node.
    let g = GraphData::new(3, vec![(0, 1), (1, 2), (2, 0)], false).unwrap();
    let (rows, _cols, _tree, _max_col, max_row) = hierarchy_assign(&g);
    assert_eq!(rows[0], 0);
    assert_eq!(max_row, 2);
    let map = hierarchical_layout(&g, Orientation::TopToBottom);
    assert!(in_unit_square_exec(&map));
}

#[test]
fn test_hierarchical_disconnected_components() {
    // Two separate directed edges tile side by side without overlapping.
    let g = GraphData::new(4, vec![(0, 1), (2, 3)], true).unwrap();
    let (rows, cols, _tree, _max_col, _max_row) = hierarchy_assign(&g);
    assert_eq!(rows, vec![0, 1, 0, 1]);
    assert!(cols[0] < cols[2]);
    assert!(cols[1] < cols[3]);
}

#[test]
fn test_force_directed_stays_in_unit_square() {
    let g = GraphData::new(4, vec![(0, 1), (1, 2), (2, 3), (3, 0)], false).unwrap();
    let map = force_directed_layout(&g, 200);
    assert_eq!(map.len(), 4);
    assert!(in_unit_square_exec(&map));
}

#[test]
fn test_force_directed_deterministic() {
    let g = GraphData::new(5, vec![(0, 1), (1, 2), (2, 3), (3, 4)], false).unwrap();
    let a = force_directed_layout(&g, 300);
    let b = force_directed_layout(&g, 300);
    for i in 0..5 {
        assert_eq!(a.get(i), b.get(i));
    }
}

#[test]
fn test_force_directed_pair_separation_near_ideal() {
    // Two connected nodes settle near the ideal distance k = sqrt(1/2),
    // neither collapsing onto each other nor flying apart.
    let g = GraphData::new(2, vec![(0, 1)], false).unwrap();
    let raw = force_directed_raw(&g, 500);
    let dx = to_f64(raw[0].x - raw[1].x);
    let dy = to_f64(raw[0].y - raw[1].y);
    let d = (dx * dx + dy * dy).sqrt();
    let k = (0.5f64).sqrt();
    assert!((d - k).abs() < 0.1, "separation {} not near {}", d, k);
}

#[test]
fn test_force_directed_zero_iterations_is_circle_start() {
    // With an empty budget the raw positions are exactly the unit-circle
    // start: quarter turns land on the axes.
    let g = nodes_only(4);
    let raw = force_directed_raw(&g, 0);
    assert_eq!((raw[0].x, raw[0].y), (UNIT, 0));
    assert_eq!((raw[1].x, raw[1].y), (0, UNIT));
    assert_eq!((raw[2].x, raw[2].y), (-UNIT, 0));
    assert_eq!((raw[3].x, raw[3].y), (0, -UNIT));
}

#[test]
fn test_force_directed_single_node_at_center() {
    let g = nodes_only(1);
    let map = force_directed_layout(&g, 100);
    assert_eq!(map.get(0).x, HALF);
    assert_eq!(map.get(0).y, HALF);
}

#[test]
fn test_random_layout_in_unit_square() {
    let g = nodes_only(50);
    let map = random_layout_seeded(&g, 7);
    assert_eq!(map.len(), 50);
    assert!(in_unit_square_exec(&map));
}

#[test]
fn test_random_seeded_reproducible() {
    let g = nodes_only(20);
    let a = random_layout_seeded(&g, 42);
    let b = random_layout_seeded(&g, 42);
    for i in 0..20 {
        assert_eq!(a.get(i), b.get(i));
    }
}

#[test]
fn test_bipartite_single_side() {
    // Every node on the Left side: x is 0.25 throughout and the side spans
    // [0, 1] evenly.
    let is_left = vec![true, true, true];
    let map = bipartite_positions(3, &is_left);
    for i in 0..3 {
        assert_eq!(map.get(i).x, QUARTER);
    }
    assert_eq!(map.get(0).y, 0);
    assert_eq!(map.get(1).y, HALF);
    assert_eq!(map.get(2).y, UNIT);
}

#[test]
fn test_bipartite_singleton_sides() {
    // A side of one node sits at y = 0.
    let is_left = vec![true, false];
    let map = bipartite_positions(2, &is_left);
    assert_eq!(map.get(0).y, 0);
    assert_eq!(map.get(1).y, 0);
}

#[test]
fn test_hierarchical_single_node() {
    let g = nodes_only(1);
    let map = hierarchical_layout(&g, Orientation::TopToBottom);
    assert_eq!(map.len(), 1);
    assert_eq!(map.get(0).y, 0);
}

#[test]
fn test_hierarchical_deterministic() {
    // The hierarchy grid is a function of the graph alone, so two layouts
    // of one unchanged graph agree on every node.
    let g = GraphData::new(6, vec![(0, 1), (1, 2), (1, 3), (3, 4), (5, 5)], true).unwrap();
    let a = hierarchical_layout(&g, Orientation::TopToBottom);
    let b = hierarchical_layout(&g, Orientation::TopToBottom);
    for i in 0..6 {
        assert_eq!(a.get(i), b.get(i));
    }
}

#[test]
fn test_hierarchical_cycle_terminates() {
    // A directed cycle has no root; the fallback pass places it and the
    // back edge is simply not re-descended.
    let g = GraphData::new(3, vec![(0, 1), (1, 2), (2, 0)], true).unwrap();
    let (rows, _cols, tree, _max_col, max_row) = hierarchy_assign(&g);
    assert_eq!(rows, vec![0, 1, 2]);
    assert_eq!(max_row, 2);
    assert_eq!(tree.len(), 2);
}

#[test]
fn test_random_positions_with_external_generator() {
    // The generator is injectable: the same seed gives the same layout, a
    // different seed gives (almost surely) a different one.
    let mut rng1 = fastrand::Rng::with_seed(3);
    let mut rng2 = fastrand::Rng::with_seed(3);
    let mut rng3 = fastrand::Rng::with_seed(4);
    let a = random_positions(10, &mut rng1);
    let b = random_positions(10, &mut rng2);
    let c = random_positions(10, &mut rng3);
    let mut all_equal_ac = true;
    for i in 0..10 {
        assert_eq!(a.get(i), b.get(i));
        if a.get(i) != c.get(i) {
            all_equal_ac = false;
        }
    }
    assert!(!all_equal_ac);
}
