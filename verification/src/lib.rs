//! Hierarchical opacity: a value per node that moves smoothly over time, is
//! multiplied down the scene hierarchy into an effective opacity per node,
//! and is handed to the attributes that show it.
//!
//! Opacities are fixed-point integers (see [`fixed`]); time is counted in
//! ticks. A frame runs four stages in the order of [`OpacitySet`]:
//! [`interpolate`], the host's removals, [`calculate_opacity`], and one
//! [`apply_opacity_query`] for each kind of attribute.

pub use crate::alpha::Alpha;
pub use crate::fade::interpolate;
pub use crate::fixed::UNIT;
pub use crate::hierarchy::calculate_opacity;
pub use crate::hierarchy::Node;
pub use crate::material::ExtendedMaterial;
pub use crate::material::MeshMaterial;
pub use crate::material::OpacityMaterialExtension;
pub use crate::material::PlainExtension;
pub use crate::opacity::Opacity;
pub use crate::schedule::OpacitySet;
pub use crate::sink::apply_opacity_query;
pub use crate::sink::OpacityAsset;
pub use crate::sink::OpacityQuery;
pub use crate::table::OpacityMap;
pub use crate::ui::UiColorQuery;
pub use crate::ui::UiOpacity;
use vstd::prelude::*;

verus! {

pub mod alpha;
pub mod fade;
pub mod fixed;
pub mod hierarchy;
pub mod material;
pub mod opacity;
pub mod reach;
pub mod schedule;
pub mod sink;
pub mod table;
pub mod ui;
pub mod values;

} // verus!
