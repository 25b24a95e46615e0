//! Tests for scaling, scene composition and settings validation.

use visgraph::fixed::UNIT;
use visgraph::graph::GraphData;
use visgraph::position::{Pos, PositionMap};
use visgraph::scene::{compose_scene, graph_to_scene, scale, DrawPrimitive};
use visgraph::settings::{
    InvalidSettingsError, Layout, LayoutOrPositionMap, Settings, SettingsBuilder,
};

fn fixed(px: f64) -> i64 {
    (px * UNIT as f64).round() as i64
}

fn strings(values: &[&str]) -> Vec<String> {
    values.iter().map(|s| s.to_string()).collect()
}

#[test]
fn test_scale() {
    let (scaled_x, scaled_y) = scale(
        Pos { x: fixed(0.5), y: fixed(0.5) },
        fixed(0.1),
        fixed(0.1),
        fixed(1000.0),
        fixed(1000.0),
    );
    assert!((scaled_x as f32 / UNIT as f32 - 500.0).abs() < f32::EPSILON);
    assert!((scaled_y as f32 / UNIT as f32 - 500.0).abs() < f32::EPSILON);

    let (scaled_x, scaled_y) = scale(
        Pos { x: 0, y: 0 },
        fixed(0.1),
        fixed(0.1),
        fixed(1000.0),
        fixed(1000.0),
    );
    assert!((scaled_x as f32 / UNIT as f32 - 100.0).abs() < f32::EPSILON);
    assert!((scaled_y as f32 / UNIT as f32 - 100.0).abs() < f32::EPSILON);

    let (scaled_x, scaled_y) = scale(
        Pos { x: UNIT, y: UNIT },
        fixed(0.1),
        fixed(0.1),
        fixed(1000.0),
        fixed(1000.0),
    );
    assert!((scaled_x as f32 / UNIT as f32 - 900.0).abs() < f32::EPSILON);
    assert!((scaled_y as f32 / UNIT as f32 - 900.0).abs() < f32::EPSILON);
}

/// The square graph with a hand-written position map, on a 500x500 canvas:
/// the scene holds two primitives per node and, per edge, a line shortened
/// by the node radius with a centered label.
#[test]
fn test_scene_square_with_position_map() {
    let g = GraphData::new(4, vec![(0, 1), (1, 2), (2, 3), (3, 0)], false).unwrap();
    let positions = PositionMap {
        positions: vec![
            Pos { x: fixed(0.25), y: fixed(0.25) },
            Pos { x: fixed(0.75), y: fixed(0.25) },
            Pos { x: fixed(0.75), y: fixed(0.75) },
            Pos { x: fixed(0.25), y: fixed(0.75) },
        ],
    };
    let settings = SettingsBuilder::new()
        .width(fixed(500.0))
        .height(fixed(500.0))
        .build()
        .expect("values should be valid");
    let node_labels = strings(&["0", "1", "2", "3"]);
    let node_colors = strings(&["white", "white", "white", "white"]);
    let edge_labels = strings(&["", "", "", ""]);
    let edge_colors = strings(&["black", "black", "black", "black"]);
    let prims = compose_scene(
        &positions,
        &g.edges,
        &node_labels,
        &node_colors,
        &edge_labels,
        &edge_colors,
        &settings,
    );
    // 2 primitives per node, then 2 per edge.
    assert_eq!(prims.len(), 8 + 8);
    assert_eq!(
        prims[0],
        DrawPrimitive::Circle {
            cx: fixed(137.5),
            cy: fixed(137.5),
            radius: fixed(25.0),
            fill: "white".to_string(),
        }
    );
    assert_eq!(
        prims[1],
        DrawPrimitive::Text {
            x: fixed(137.5),
            y: fixed(137.5),
            font_size: fixed(16.0),
            content: "0".to_string(),
        }
    );
    assert_eq!(
        prims[2],
        DrawPrimitive::Circle {
            cx: fixed(362.5),
            cy: fixed(137.5),
            radius: fixed(25.0),
            fill: "white".to_string(),
        }
    );
    // First edge: from node 0's rim to node 1's rim, label at the midpoint.
    assert_eq!(
        prims[8],
        DrawPrimitive::Line {
            x1: fixed(162.5),
            y1: fixed(137.5),
            x2: fixed(337.5),
            y2: fixed(137.5),
            stroke: "black".to_string(),
            stroke_width: fixed(5.0),
        }
    );
    assert_eq!(
        prims[9],
        DrawPrimitive::Text {
            x: fixed(250.0),
            y: fixed(137.5),
            font_size: fixed(16.0),
            content: "".to_string(),
        }
    );
}

/// An edge whose endpoints scale to the same point is skipped silently,
/// while both its endpoints still get their circle and label.
#[test]
fn test_scene_skips_edge_between_coincident_nodes() {
    let g = GraphData::new(2, vec![(0, 1)], false).unwrap();
    let positions = PositionMap {
        positions: vec![
            Pos { x: fixed(0.5), y: fixed(0.5) },
            Pos { x: fixed(0.5), y: fixed(0.5) },
        ],
    };
    let settings = Settings::new();
    let prims = compose_scene(
        &positions,
        &g.edges,
        &strings(&["a", "b"]),
        &strings(&["black", "black"]),
        &strings(&["e"]),
        &strings(&["black"]),
        &settings,
    );
    // Both nodes drawn, the degenerate edge contributes nothing.
    assert_eq!(prims.len(), 4);
    assert!(prims.iter().all(|p| !matches!(p, DrawPrimitive::Line { .. })));
}

/// A self-loop scales to distance zero and is skipped the same way.
#[test]
fn test_scene_skips_self_loop() {
    let g = GraphData::new(1, vec![(0, 0)], true).unwrap();
    let positions = PositionMap { positions: vec![Pos { x: fixed(0.5), y: fixed(0.5) }] };
    let settings = Settings::new();
    let prims = compose_scene(
        &positions,
        &g.edges,
        &strings(&["a"]),
        &strings(&["black"]),
        &strings(&["loop"]),
        &strings(&["black"]),
        &settings,
    );
    assert_eq!(prims.len(), 2);
}

#[test]
fn test_graph_to_scene_runs_selected_layout() {
    let g = GraphData::new(3, vec![(0, 1), (1, 2)], false).unwrap();
    let settings = SettingsBuilder::new()
        .layout(Layout::Circular)
        .build()
        .unwrap();
    let prims = graph_to_scene(
        &g,
        &settings,
        &strings(&["0", "1", "2"]),
        &strings(&["black", "black", "black"]),
        &strings(&["", ""]),
        &strings(&["black", "black"]),
    );
    // 6 node primitives; both edges are long enough to be drawn.
    assert_eq!(prims.len(), 6 + 4);
}

#[test]
fn test_graph_to_scene_with_position_map_setting() {
    let g = GraphData::new(2, vec![(0, 1)], false).unwrap();
    let map = PositionMap {
        positions: vec![Pos { x: 0, y: 0 }, Pos { x: UNIT, y: UNIT }],
    };
    let settings = SettingsBuilder::new().position_map(map).build().unwrap();
    let prims = graph_to_scene(
        &g,
        &settings,
        &strings(&["a", "b"]),
        &strings(&["red", "blue"]),
        &strings(&["e"]),
        &strings(&["green"]),
    );
    assert_eq!(prims.len(), 4 + 2);
    match &prims[0] {
        DrawPrimitive::Circle { cx, cy, fill, .. } => {
            assert_eq!(*cx, fixed(50.0));
            assert_eq!(*cy, fixed(50.0));
            assert_eq!(fill, "red");
        }
        other => panic!("expected a circle, got {:?}", other),
    }
}

#[test]
fn test_graph_to_scene_every_layout_choice() {
    let g = GraphData::new(4, vec![(0, 1), (1, 2), (2, 3)], false).unwrap();
    let node_labels = strings(&["0", "1", "2", "3"]);
    let node_colors = strings(&["black", "black", "black", "black"]);
    let edge_labels = strings(&["", "", ""]);
    let edge_colors = strings(&["black", "black", "black"]);
    let layouts = vec![
        Layout::Circular,
        Layout::Hierarchical(visgraph::hierarchical::Orientation::TopToBottom),
        Layout::ForceDirected,
        Layout::Bipartite(Some(vec![true, false, true, false])),
        Layout::Bipartite(None),
        Layout::Random,
    ];
    for layout in layouts {
        let settings = SettingsBuilder::new()
            .force_iterations(100)
            .layout(layout)
            .build()
            .unwrap();
        let prims = graph_to_scene(
            &g,
            &settings,
            &node_labels,
            &node_colors,
            &edge_labels,
            &edge_colors,
        );
        // Two primitives per node always; at most two more per edge.
        assert!(prims.len() >= 8 && prims.len() <= 8 + 6);
    }
}

#[test]
fn test_graph_to_scene_empty_graph() {
    let g = GraphData::new(0, vec![], false).unwrap();
    let settings = Settings::new();
    let prims = graph_to_scene(&g, &settings, &vec![], &vec![], &vec![], &vec![]);
    assert!(prims.is_empty());
}

#[test]
fn test_settings_defaults() {
    let s = Settings::new();
    assert_eq!(s.width, fixed(1000.0));
    assert_eq!(s.height, fixed(1000.0));
    assert_eq!(s.radius, fixed(25.0));
    assert_eq!(s.font_size, fixed(16.0));
    assert_eq!(s.stroke_width, fixed(5.0));
    assert_eq!(s.margin_x, fixed(0.05));
    assert_eq!(s.margin_y, fixed(0.05));
    assert!(matches!(
        s.layout_or_pos_map,
        LayoutOrPositionMap::Layout(Layout::Circular)
    ));
}

#[test]
fn test_settings_builder_accepts_valid_values() {
    let s = SettingsBuilder::new()
        .width(fixed(800.0))
        .height(fixed(600.0))
        .node_radius(fixed(10.0))
        .font_size(fixed(12.0))
        .stroke_width(fixed(2.0))
        .margin_x(fixed(0.1))
        .margin_y(fixed(0.2))
        .build()
        .expect("provided values should be valid");
    assert_eq!(s.width, fixed(800.0));
    assert_eq!(s.height, fixed(600.0));
    assert_eq!(s.radius, fixed(10.0));
    assert_eq!(s.margin_y, fixed(0.2));
}

#[test]
fn test_settings_rejects_dimensions() {
    let r = SettingsBuilder::new().width(-fixed(1.0)).build();
    assert_eq!(
        r.unwrap_err(),
        InvalidSettingsError::Dimensions(-fixed(1.0), fixed(1000.0))
    );
    let r = SettingsBuilder::new().height(0).build();
    assert_eq!(
        r.unwrap_err(),
        InvalidSettingsError::Dimensions(fixed(1000.0), 0)
    );
}

#[test]
fn test_settings_rejects_radius() {
    let r = SettingsBuilder::new().node_radius(0).build();
    assert_eq!(r.unwrap_err(), InvalidSettingsError::Radius(0));
}

#[test]
fn test_settings_rejects_font_size() {
    let r = SettingsBuilder::new().font_size(-fixed(5.0)).build();
    assert_eq!(r.unwrap_err(), InvalidSettingsError::FontSize(-fixed(5.0)));
}

#[test]
fn test_settings_rejects_stroke_width() {
    let r = SettingsBuilder::new().stroke_width(0).build();
    assert_eq!(r.unwrap_err(), InvalidSettingsError::StrokeWidth(0));
}

#[test]
fn test_settings_rejects_margin() {
    // Margins must lie in [0, 0.5): exactly one half is already out.
    let r = SettingsBuilder::new().margin_x(fixed(0.5)).build();
    assert_eq!(
        r.unwrap_err(),
        InvalidSettingsError::Margin(fixed(0.5), fixed(0.05))
    );
    let r = SettingsBuilder::new().margin_y(-fixed(0.01)).build();
    assert_eq!(
        r.unwrap_err(),
        InvalidSettingsError::Margin(fixed(0.05), -fixed(0.01))
    );
}

#[test]
fn test_settings_error_precedence() {
    // The first offending group wins: dimensions before margins.
    let r = SettingsBuilder::new().width(0).margin_x(fixed(0.9)).build();
    assert!(matches!(
        r.unwrap_err(),
        InvalidSettingsError::Dimensions(_, _)
    ));
}
