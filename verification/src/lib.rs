//! Domain-free config primitives shared by a family of apps that keep the same
//! window → group → tab config shape: where the config lives ([`paths`]), a starter config on
//! request ([`seed`]), structural TOML edits ([`edit`]), project-tree roots and discovery
//! ([`roots`]), and the leaf-free model types ([`model`]). Each app keeps its own leaf tab type,
//! validation and cascade resolution, and calls these primitives.
//!
//! Paths are strings read with Unix path syntax ([`pathname`]) and sort component-wise
//! ([`path_order`]).
pub mod edit;
pub mod model;
pub mod path_order;
pub mod pathname;
pub mod paths;
pub mod roots;
pub mod seed;
pub mod text;

pub use edit::{add_tab, plan_add_tab, EditError};
pub use model::{default_true, default_window_height, default_window_width, Density, Group, OpenOnLaunch, Warning};
pub use paths::{default_config_path, resolve_config_path};
pub use roots::{
    discover_projects, resolve_root_dir, tree_path, DiscoveredProject, RootDir, RootError,
    DEFAULT_ROOT_DEPTH,
};
pub use seed::{write_default_config, SeedError};

// Re-exported so consumers can name the field-value type `add_tab` takes
// (`config_core::toml_edit::Value`) without a `toml_edit` dependency of their own.
pub use toml_edit;
