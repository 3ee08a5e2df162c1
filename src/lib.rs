//! A virtual-DOM diff/patch engine: tree paths, the skip-diff decision tree,
//! the patch model, component effects and the diff itself, with their
//! behaviour stated as contracts and proved.
pub mod tree_path;
pub mod skip_diff;
pub mod effects;
pub mod component;
pub mod node;
pub mod patch;
pub mod diff;
pub mod lis;
pub mod dom_patch;
pub mod templated_view;

pub use component::{extract_simple_struct_name, Component};
pub use diff::{diff, diff_recursive, diff_with_skip};
pub use dom_patch::{DomPatch, PatchVariant};
pub use effects::Effects;
pub use node::{Attribute, AttributeValue, Node, StyleEntry};
pub use patch::{check_targets, paths_to_resolve, Patch, PatchType, ResolveError};
pub use templated_view::TemplatedView;
pub use skip_diff::{skip_if, SkipDiff};
pub use tree_path::TreePath;
