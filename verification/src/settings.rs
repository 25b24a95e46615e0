//! Settings for graph visualization.
//!
//! A [`Settings`] value carries the canvas geometry, the margins, and the
//! choice of layout algorithm (or a ready position map). Create one with
//! default values through [`Settings::new`], or customize and validate one
//! through [`SettingsBuilder`]: its `build` method checks every value and
//! reports the first offending group as an [`InvalidSettingsError`].
//!
//! All lengths are fixed-point pixel values (see [`crate::fixed::UNIT`]);
//! margins are fixed-point fractions of the width or height in [0, 0.5).

use crate::fixed::{HALF, UNIT};
use crate::hierarchical::Orientation;
use crate::position::PositionMap;
use vstd::prelude::*;

verus! {

/// Default width of the canvas: 1000 pixels.
pub const DEFAULT_WIDTH: i64 = 1000 * UNIT;

/// Default height of the canvas: 1000 pixels.
pub const DEFAULT_HEIGHT: i64 = 1000 * UNIT;

/// Default radius of the nodes: 25 pixels.
pub const DEFAULT_RADIUS: i64 = 25 * UNIT;

/// Default font size for labels: 16 pixels.
pub const DEFAULT_FONT_SIZE: i64 = 16 * UNIT;

/// Default stroke width for edges: 5 pixels.
pub const DEFAULT_STROKE_WIDTH: i64 = 5 * UNIT;

/// Default margin as a fraction of the width/height: 0.05, so 5% on each
/// side, leaving 90% for drawing.
pub const DEFAULT_MARGIN: i64 = 50_000;

/// Largest accepted pixel length (dimension, radius, font size, stroke
/// width), forced by the fixed-point representation.
pub const MAX_DIMENSION: i64 = 100_000 * UNIT;

/// The layout algorithms a [`Settings`] value can select.
///
/// The algorithms can also be called directly from their modules.
#[derive(Debug, Clone)]
#[non_exhaustive]
pub enum Layout {
    /// Nodes are arranged evenly on a circle (see [`crate::circular`]).
    Circular,
    /// Nodes are arranged in rows below their roots, under the given
    /// orientation (see [`crate::hierarchical`]).
    Hierarchical(Orientation),
    /// Nodes are arranged by a spring-embedder simulation (see
    /// [`crate::force_directed`]).
    ForceDirected,
    /// Nodes are split into a Left and a Right column. The vector marks the
    /// Left side by dense node index; with `None` a side assignment is
    /// discovered by traversal (see [`crate::bipartite`]).
    Bipartite(Option<Vec<bool>>),
    /// Nodes are placed uniformly at random (see [`crate::random`]).
    Random,
}

/// Either a layout algorithm to run, or a ready position map to use as-is.
#[derive(Debug, Clone)]
pub enum LayoutOrPositionMap {
    /// A layout algorithm.
    Layout(Layout),
    /// A precomputed position table, one entry per dense node index.
    PositionMap(PositionMap),
}

/// The ways a settings value can be invalid, each carrying the offending
/// values. Lengths must be strictly positive (and fit the fixed-point
/// range); margins must lie in [0, 0.5).
#[derive(Clone, Copy, Debug, PartialEq, Eq, Structural)]
pub enum InvalidSettingsError {
    /// Width or height out of range.
    Dimensions(i64, i64),
    /// Node radius out of range.
    Radius(i64),
    /// Font size out of range.
    FontSize(i64),
    /// Stroke width out of range.
    StrokeWidth(i64),
    /// A margin outside [0, 0.5).
    Margin(i64, i64),
}

/// Whether a pixel length is acceptable: strictly positive and within the
/// fixed-point range.
pub open spec fn length_ok(v: int) -> bool {
    0 < v <= MAX_DIMENSION
}

/// Whether a margin fraction is acceptable: in [0, 0.5).
pub open spec fn margin_ok(v: int) -> bool {
    0 <= v < HALF
}

/// Settings for rendering a graph.
#[derive(Debug, Clone)]
pub struct Settings {
    /// Width of the canvas in fixed-point pixels.
    pub width: i64,
    /// Height of the canvas in fixed-point pixels.
    pub height: i64,
    /// Radius of the nodes in fixed-point pixels.
    pub radius: i64,
    /// Font size for labels in fixed-point pixels.
    pub font_size: i64,
    /// Stroke width for edges in fixed-point pixels.
    pub stroke_width: i64,
    /// Horizontal margin as a fixed-point fraction of the width.
    pub margin_x: i64,
    /// Vertical margin as a fixed-point fraction of the height.
    pub margin_y: i64,
    /// Iteration budget for the force-directed layout.
    pub force_iterations: u32,
    /// The layout algorithm, or a ready position map.
    pub layout_or_pos_map: LayoutOrPositionMap,
}

impl Settings {
    /// All geometry values are acceptable.
    pub open spec fn valid(self) -> bool {
        &&& length_ok(self.width as int)
        &&& length_ok(self.height as int)
        &&& length_ok(self.radius as int)
        &&& length_ok(self.font_size as int)
        &&& length_ok(self.stroke_width as int)
        &&& margin_ok(self.margin_x as int)
        &&& margin_ok(self.margin_y as int)
    }

    /// The default field values, shared by `new`, `default` and the builder.
    pub open spec fn is_default_geometry(self) -> bool {
        &&& self.width == DEFAULT_WIDTH
        &&& self.height == DEFAULT_HEIGHT
        &&& self.radius == DEFAULT_RADIUS
        &&& self.font_size == DEFAULT_FONT_SIZE
        &&& self.stroke_width == DEFAULT_STROKE_WIDTH
        &&& self.margin_x == DEFAULT_MARGIN
        &&& self.margin_y == DEFAULT_MARGIN
        &&& self.force_iterations == crate::force_directed::DEFAULT_ITERATIONS
        &&& self.layout_or_pos_map matches LayoutOrPositionMap::Layout(Layout::Circular)
    }

    /// Whether all geometry values are acceptable, decided at run time.
    pub fn check_valid(&self) -> (r: bool)
        ensures
            r == self.valid(),
    {
        0 < self.width && self.width <= MAX_DIMENSION && 0 < self.height && self.height
            <= MAX_DIMENSION && 0 < self.radius && self.radius <= MAX_DIMENSION && 0
            < self.font_size && self.font_size <= MAX_DIMENSION && 0 < self.stroke_width
            && self.stroke_width <= MAX_DIMENSION && 0 <= self.margin_x && self.margin_x < HALF
            && 0 <= self.margin_y && self.margin_y < HALF
    }

    /// Creates settings with the default values and the circular layout.
    pub fn new() -> (r: Settings)
        ensures
            r.is_default_geometry(),
            r.valid(),
    {
        Settings {
            width: DEFAULT_WIDTH,
            height: DEFAULT_HEIGHT,
            radius: DEFAULT_RADIUS,
            font_size: DEFAULT_FONT_SIZE,
            stroke_width: DEFAULT_STROKE_WIDTH,
            margin_x: DEFAULT_MARGIN,
            margin_y: DEFAULT_MARGIN,
            force_iterations: crate::force_directed::DEFAULT_ITERATIONS,
            layout_or_pos_map: LayoutOrPositionMap::Layout(Layout::Circular),
        }
    }
}

impl Default for Settings {
    /// Creates settings with the default values and the circular layout.
    fn default() -> (r: Settings)
        ensures
            r.is_default_geometry(),
            r.valid(),
    {
        Settings::new()
    }
}

/// Builder for a [`Settings`] value: set any fields, then call
/// [`SettingsBuilder::build`], which validates them.
#[derive(Debug, Clone)]
pub struct SettingsBuilder {
    /// Width of the canvas in fixed-point pixels.
    pub width: i64,
    /// Height of the canvas in fixed-point pixels.
    pub height: i64,
    /// Radius of the nodes in fixed-point pixels.
    pub node_radius: i64,
    /// Font size for labels in fixed-point pixels.
    pub font_size: i64,
    /// Stroke width for edges in fixed-point pixels.
    pub stroke_width: i64,
    /// Horizontal margin as a fixed-point fraction of the width.
    pub margin_x: i64,
    /// Vertical margin as a fixed-point fraction of the height.
    pub margin_y: i64,
    /// Iteration budget for the force-directed layout.
    pub force_iterations: u32,
    /// The layout algorithm, or a ready position map.
    pub layout_or_pos_map: LayoutOrPositionMap,
}

impl Default for SettingsBuilder {
    /// A builder holding the default values.
    fn default() -> (r: SettingsBuilder)
        ensures
            r.width == DEFAULT_WIDTH,
            r.height == DEFAULT_HEIGHT,
            r.node_radius == DEFAULT_RADIUS,
            r.font_size == DEFAULT_FONT_SIZE,
            r.stroke_width == DEFAULT_STROKE_WIDTH,
            r.margin_x == DEFAULT_MARGIN,
            r.margin_y == DEFAULT_MARGIN,
            r.force_iterations == crate::force_directed::DEFAULT_ITERATIONS,
            r.layout_or_pos_map matches LayoutOrPositionMap::Layout(Layout::Circular),
    {
        SettingsBuilder {
            width: DEFAULT_WIDTH,
            height: DEFAULT_HEIGHT,
            node_radius: DEFAULT_RADIUS,
            font_size: DEFAULT_FONT_SIZE,
            stroke_width: DEFAULT_STROKE_WIDTH,
            margin_x: DEFAULT_MARGIN,
            margin_y: DEFAULT_MARGIN,
            force_iterations: crate::force_directed::DEFAULT_ITERATIONS,
            layout_or_pos_map: LayoutOrPositionMap::Layout(Layout::Circular),
        }
    }
}

impl SettingsBuilder {
    /// A builder holding the default values.
    pub fn new() -> (r: SettingsBuilder)
        ensures
            r.width == DEFAULT_WIDTH,
            r.height == DEFAULT_HEIGHT,
            r.node_radius == DEFAULT_RADIUS,
            r.font_size == DEFAULT_FONT_SIZE,
            r.stroke_width == DEFAULT_STROKE_WIDTH,
            r.margin_x == DEFAULT_MARGIN,
            r.margin_y == DEFAULT_MARGIN,
            r.force_iterations == crate::force_directed::DEFAULT_ITERATIONS,
            r.layout_or_pos_map matches LayoutOrPositionMap::Layout(Layout::Circular),
    {
        SettingsBuilder::default()
    }

    /// Sets the canvas width and returns the builder.
    pub fn width(self, width: i64) -> (r: SettingsBuilder)
        ensures
            r == (SettingsBuilder { width, ..self }),
    {
        SettingsBuilder { width, ..self }
    }

    /// Sets the canvas height and returns the builder.
    pub fn height(self, height: i64) -> (r: SettingsBuilder)
        ensures
            r == (SettingsBuilder { height, ..self }),
    {
        SettingsBuilder { height, ..self }
    }

    /// Sets the node radius and returns the builder.
    pub fn node_radius(self, radius: i64) -> (r: SettingsBuilder)
        ensures
            r == (SettingsBuilder { node_radius: radius, ..self }),
    {
        SettingsBuilder { node_radius: radius, ..self }
    }

    /// Sets the label font size and returns the builder.
    pub fn font_size(self, font_size: i64) -> (r: SettingsBuilder)
        ensures
            r == (SettingsBuilder { font_size, ..self }),
    {
        SettingsBuilder { font_size, ..self }
    }

    /// Sets the edge stroke width and returns the builder.
    pub fn stroke_width(self, stroke_width: i64) -> (r: SettingsBuilder)
        ensures
            r == (SettingsBuilder { stroke_width, ..self }),
    {
        SettingsBuilder { stroke_width, ..self }
    }

    /// Sets the horizontal margin fraction and returns the builder.
    pub fn margin_x(self, margin_x: i64) -> (r: SettingsBuilder)
        ensures
            r == (SettingsBuilder { margin_x, ..self }),
    {
        SettingsBuilder { margin_x, ..self }
    }

    /// Sets the vertical margin fraction and returns the builder.
    pub fn margin_y(self, margin_y: i64) -> (r: SettingsBuilder)
        ensures
            r == (SettingsBuilder { margin_y, ..self }),
    {
        SettingsBuilder { margin_y, ..self }
    }

    /// Sets the force-directed iteration budget and returns the builder.
    pub fn force_iterations(self, force_iterations: u32) -> (r: SettingsBuilder)
        ensures
            r == (SettingsBuilder { force_iterations, ..self }),
    {
        SettingsBuilder { force_iterations, ..self }
    }

    /// Selects a layout algorithm and returns the builder. This overrides
    /// any position map set earlier.
    pub fn layout(self, layout: Layout) -> (r: SettingsBuilder)
        ensures
            r == (SettingsBuilder { layout_or_pos_map: LayoutOrPositionMap::Layout(layout), ..self }),
    {
        SettingsBuilder { layout_or_pos_map: LayoutOrPositionMap::Layout(layout), ..self }
    }

    /// Supplies a ready position map and returns the builder. This overrides
    /// any layout algorithm set earlier.
    pub fn position_map(self, position_map: PositionMap) -> (r: SettingsBuilder)
        ensures
            r == (SettingsBuilder {
                layout_or_pos_map: LayoutOrPositionMap::PositionMap(position_map),
                ..self
            }),
    {
        SettingsBuilder { layout_or_pos_map: LayoutOrPositionMap::PositionMap(position_map), ..self }
    }

    /// Checks every value, reporting the first offending group: dimensions,
    /// then radius, font size, stroke width, and finally the margins.
    fn validate(&self) -> (r: Result<(), InvalidSettingsError>)
        ensures
            r == (if !(length_ok(self.width as int) && length_ok(self.height as int)) {
                Err::<(), InvalidSettingsError>(InvalidSettingsError::Dimensions(
                    self.width,
                    self.height,
                ))
            } else if !length_ok(self.node_radius as int) {
                Err(InvalidSettingsError::Radius(self.node_radius))
            } else if !length_ok(self.font_size as int) {
                Err(InvalidSettingsError::FontSize(self.font_size))
            } else if !length_ok(self.stroke_width as int) {
                Err(InvalidSettingsError::StrokeWidth(self.stroke_width))
            } else if !(margin_ok(self.margin_x as int) && margin_ok(self.margin_y as int)) {
                Err(InvalidSettingsError::Margin(self.margin_x, self.margin_y))
            } else {
                Ok(())
            }),
    {
        if self.width <= 0 || self.width > MAX_DIMENSION || self.height <= 0 || self.height
            > MAX_DIMENSION {
            Err(InvalidSettingsError::Dimensions(self.width, self.height))
        } else if self.node_radius <= 0 || self.node_radius > MAX_DIMENSION {
            Err(InvalidSettingsError::Radius(self.node_radius))
        } else if self.font_size <= 0 || self.font_size > MAX_DIMENSION {
            Err(InvalidSettingsError::FontSize(self.font_size))
        } else if self.stroke_width <= 0 || self.stroke_width > MAX_DIMENSION {
            Err(InvalidSettingsError::StrokeWidth(self.stroke_width))
        } else if self.margin_x < 0 || self.margin_x >= HALF || self.margin_y < 0 || self.margin_y
            >= HALF {
            Err(InvalidSettingsError::Margin(self.margin_x, self.margin_y))
        } else {
            Ok(())
        }
    }

    /// Validates the values and builds the [`Settings`]: `Ok` exactly when
    /// every value is acceptable, else the first offending group's error.
    pub fn build(self) -> (r: Result<Settings, InvalidSettingsError>)
        ensures
            r is Ok <==> (length_ok(self.width as int) && length_ok(self.height as int)
                && length_ok(self.node_radius as int) && length_ok(self.font_size as int)
                && length_ok(self.stroke_width as int) && margin_ok(self.margin_x as int)
                && margin_ok(self.margin_y as int)),
            r matches Ok(s) ==> s == (Settings {
                width: self.width,
                height: self.height,
                radius: self.node_radius,
                font_size: self.font_size,
                stroke_width: self.stroke_width,
                margin_x: self.margin_x,
                margin_y: self.margin_y,
                force_iterations: self.force_iterations,
                layout_or_pos_map: self.layout_or_pos_map,
            }) && s.valid(),
            r matches Err(e) ==> e == (if !(length_ok(self.width as int) && length_ok(
                self.height as int,
            )) {
                InvalidSettingsError::Dimensions(self.width, self.height)
            } else if !length_ok(self.node_radius as int) {
                InvalidSettingsError::Radius(self.node_radius)
            } else if !length_ok(self.font_size as int) {
                InvalidSettingsError::FontSize(self.font_size)
            } else if !length_ok(self.stroke_width as int) {
                InvalidSettingsError::StrokeWidth(self.stroke_width)
            } else {
                InvalidSettingsError::Margin(self.margin_x, self.margin_y)
            }),
    {
        match self.validate() {
            Err(e) => Err(e),
            Ok(()) => Ok(
                Settings {
                    width: self.width,
                    height: self.height,
                    radius: self.node_radius,
                    font_size: self.font_size,
                    stroke_width: self.stroke_width,
                    margin_x: self.margin_x,
                    margin_y: self.margin_y,
                    force_iterations: self.force_iterations,
                    layout_or_pos_map: self.layout_or_pos_map,
                },
            ),
        }
    }
}

} // verus!
