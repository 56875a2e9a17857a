//! Maze walking on a rectangular character grid: loading a grid, searching a
//! route from its origin to its target, and rendering the grid with the route
//! laid over it.

pub mod cell;
pub mod config;
pub mod cost_cache;
pub mod engine;
pub mod error;
pub mod game_map;
pub mod grid;
pub mod guarantees;
pub mod invariants;
pub mod key;
pub mod load;
pub mod maze;
pub mod path;
pub mod point;
pub mod render;
pub mod search;

pub use cell::CellType;
pub use cell::ConversionError;
pub use config::AppConfig;
pub use cost_cache::CostCache;
pub use cost_cache::CostMetric;
pub use cost_cache::Node;
pub use engine::Search;
pub use error::GameMapError;
pub use error::LoadError;
pub use game_map::GameMap;
pub use game_map::GameMapStatus;
pub use game_map::GameMapView;
pub use grid::Grid;
pub use maze::Maze;
pub use path::Path;
pub use path::PointSet;
pub use point::Point;
pub use search::SearchPhase;
pub use search::SearchState;
